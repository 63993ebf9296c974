//! Interpolators for anti-aliased outline rendering
//!
//! Distances from a pixel to a line are kept as cross products in
//! subpixel units and updated incrementally as the pixel moves.

use vstd::prelude::*;
use crate::{POLY_SUBPIXEL_SHIFT, POLY_SUBPIXEL_SCALE, POLY_SUBPIXEL_MASK, POLY_MR_SUBPIXEL_SHIFT, MAX_HALF_WIDTH};
use crate::render::LineInterpolator;
use crate::{in_coord, in_aux, fits_i64, COORD_LIMIT, AUX_LIMIT, RenderOutline, covers_queryable,
            spans_drawable};
use crate::fixed::{iabs, lemma_shr4, lemma_shl8, lemma_shl4, lemma_mul_bound};

verus! {

/// A subpixel coordinate reduced to medium resolution (1/16 pixel)
pub open spec fn mr(x: int) -> int {
    x / 16
}

/// Reduce a subpixel coordinate to medium resolution
pub fn line_mr(x: i64) -> (r: i64)
    ensures
        r == mr(x as int),
{
    proof { lemma_shr4(x); }
    x >> (POLY_SUBPIXEL_SHIFT - POLY_MR_SUBPIXEL_SHIFT)
}

/// `mr(v)` is the floor of `v / 16`
pub proof fn lemma_mr(v: int)
    ensures
        16 * mr(v) <= v < 16 * mr(v) + 16,
{
    vstd::arithmetic::div_mod::lemma_fundamental_div_mod(v, 16);
    vstd::arithmetic::div_mod::lemma_mod_bound(v, 16);
}

/// Medium resolution cross product `(mr(x + 128) - mr(x1)) * dy - (mr(y + 128) - mr(y1)) * dx`
pub open spec fn mr_cross(x: int, y: int, x1: int, y1: int, dx: int, dy: int) -> int {
    (mr(x + 128) - mr(x1)) * dy - (mr(y + 128) - mr(y1)) * dx
}

/// Subpixel cross product `(x + 128 - x2) * dy - (y + 128 - y2) * dx`
pub open spec fn hr_cross(x: int, y: int, x2: int, y2: int, dx: int, dy: int) -> int {
    (x + 128 - x2) * dy - (y + 128 - y2) * dx
}

pub(crate) fn mr_cross_exec(x: i64, y: i64, x1: i64, y1: i64, dx: i64, dy: i64) -> (r: i64)
    requires
        in_aux(x + 128), in_aux(y + 128), in_aux(x1 as int), in_aux(y1 as int),
        iabs(dx as int) <= 0x80_0020, iabs(dy as int) <= 0x80_0020,
    ensures
        r == mr_cross(x as int, y as int, x1 as int, y1 as int, dx as int, dy as int),
        iabs(r as int) <= 2 * 0x80_0020 * 0x80_0020,
{
    let a: i64 = line_mr(x + POLY_SUBPIXEL_SCALE / 2) - line_mr(x1);
    let b: i64 = line_mr(y + POLY_SUBPIXEL_SCALE / 2) - line_mr(y1);
    proof {
        lemma_mul_bound(a as int, dy as int, 0x80_0020, 0x80_0020);
        lemma_mul_bound(b as int, dx as int, 0x80_0020, 0x80_0020);
    }
    a * dy - b * dx
}

pub(crate) fn hr_cross_exec(x: i64, y: i64, x2: i64, y2: i64, dx: i64, dy: i64) -> (r: i64)
    requires
        in_coord(x as int), in_coord(y as int), in_coord(x2 as int), in_coord(y2 as int),
        iabs(dx as int) <= 2 * COORD_LIMIT, iabs(dy as int) <= 2 * COORD_LIMIT,
    ensures
        r == hr_cross(x as int, y as int, x2 as int, y2 as int, dx as int, dy as int),
        iabs(r as int) <= 2 * 0x200_0080 * 0x200_0000,
{
    let a: i64 = x + POLY_SUBPIXEL_SCALE / 2 - x2;
    let b: i64 = y + POLY_SUBPIXEL_SCALE / 2 - y2;
    proof {
        lemma_mul_bound(a as int, dy as int, 0x200_0080, 0x200_0000);
        lemma_mul_bound(b as int, dx as int, 0x200_0080, 0x200_0000);
    }
    a * dy - b * dx
}

/// Distances to two lines through a center, for pie slices
#[derive(Debug)]
pub struct DistanceInterpolator00 {
    pub dx1: i64,
    pub dy1: i64,
    pub dx2: i64,
    pub dy2: i64,
    pub dist1: i64,
    pub dist2: i64,
}

impl DistanceInterpolator00 {
    /// Distances of pixel (`x`,`y`) to the lines from (`xc`,`yc`) through
    /// (`x1`,`y1`) and through (`x2`,`y2`)
    pub fn new(xc: i64, yc: i64, x1: i64, y1: i64, x2: i64, y2: i64, x: i64, y: i64) -> (s: Self)
        requires
            in_aux(xc as int), in_aux(yc as int), in_aux(x1 as int), in_aux(y1 as int), in_aux(x2 as int), in_aux(y2 as int),
            in_aux(x + 128), in_aux(y + 128),
        ensures
            s.dx1 == (mr(x1 as int) - mr(xc as int)) * 16,
            s.dy1 == (mr(y1 as int) - mr(yc as int)) * 16,
            s.dx2 == (mr(x2 as int) - mr(xc as int)) * 16,
            s.dy2 == (mr(y2 as int) - mr(yc as int)) * 16,
            s.dist1 == mr_cross(x as int, y as int, x1 as int, y1 as int,
                mr(x1 as int) - mr(xc as int), mr(y1 as int) - mr(yc as int)),
            s.dist2 == mr_cross(x as int, y as int, x2 as int, y2 as int,
                mr(x2 as int) - mr(xc as int), mr(y2 as int) - mr(yc as int)),
    {
        let dx1: i64 = line_mr(x1) - line_mr(xc);
        let dy1: i64 = line_mr(y1) - line_mr(yc);
        let dx2: i64 = line_mr(x2) - line_mr(xc);
        let dy2: i64 = line_mr(y2) - line_mr(yc);
        let dist1: i64 = mr_cross_exec(x, y, x1, y1, dx1, dy1);
        let dist2: i64 = mr_cross_exec(x, y, x2, y2, dx2, dy2);
        proof {
            lemma_shl4(dx1); lemma_shl4(dy1); lemma_shl4(dx2); lemma_shl4(dy2);
        }
        let dx1: i64 = dx1 << POLY_MR_SUBPIXEL_SHIFT;
        let dy1: i64 = dy1 << POLY_MR_SUBPIXEL_SHIFT;
        let dx2: i64 = dx2 << POLY_MR_SUBPIXEL_SHIFT;
        let dy2: i64 = dy2 << POLY_MR_SUBPIXEL_SHIFT;
        DistanceInterpolator00 { dx1, dy1, dx2, dy2, dist1, dist2 }
    }

    /// Move one pixel right
    pub fn inc_x(&mut self)
        requires
            fits_i64(old(self).dist1 + old(self).dy1),
            fits_i64(old(self).dist2 + old(self).dy2),
        ensures
            final(self).dist1 == old(self).dist1 + old(self).dy1,
            final(self).dist2 == old(self).dist2 + old(self).dy2,
            final(self).dx1 == old(self).dx1 && final(self).dy1 == old(self).dy1,
            final(self).dx2 == old(self).dx2 && final(self).dy2 == old(self).dy2,
    {
        self.dist1 += self.dy1;
        self.dist2 += self.dy2;
    }
}

/// Distance to a single line, for semicircular dots
#[derive(Debug)]
pub struct DistanceInterpolator0 {
    pub dx: i64,
    pub dy: i64,
    pub dist: i64,
}

impl DistanceInterpolator0 {
    /// Distance of pixel (`x`,`y`) to the line from (`x1`,`y1`) to (`x2`,`y2`)
    pub fn new(x1: i64, y1: i64, x2: i64, y2: i64, x: i64, y: i64) -> (s: Self)
        requires
            in_aux(x1 as int), in_aux(y1 as int), in_aux(x2 as int), in_aux(y2 as int), in_aux(x + 128), in_aux(y + 128),
        ensures
            s.dx == (mr(x2 as int) - mr(x1 as int)) * 16,
            s.dy == (mr(y2 as int) - mr(y1 as int)) * 16,
            s.dist == mr_cross(x as int, y as int, x2 as int, y2 as int,
                mr(x2 as int) - mr(x1 as int), mr(y2 as int) - mr(y1 as int)),
    {
        let dx: i64 = line_mr(x2) - line_mr(x1);
        let dy: i64 = line_mr(y2) - line_mr(y1);
        let dist: i64 = mr_cross_exec(x, y, x2, y2, dx, dy);
        proof { lemma_shl4(dx); lemma_shl4(dy); }
        let dx: i64 = dx << POLY_MR_SUBPIXEL_SHIFT;
        let dy: i64 = dy << POLY_MR_SUBPIXEL_SHIFT;
        DistanceInterpolator0 { dx, dy, dist }
    }

    /// Move one pixel right
    pub fn inc_x(&mut self)
        requires
            fits_i64(old(self).dist + old(self).dy),
        ensures
            final(self).dist == old(self).dist + old(self).dy,
            final(self).dx == old(self).dx && final(self).dy == old(self).dy,
    {
        self.dist += self.dy;
    }
}

} // verus!

verus! {

/// Adjustment of a distance by `d` when the perpendicular coordinate moved by `v`
pub open spec fn side_adj(v: int, d: int) -> int {
    if v > 0 { -d } else if v < 0 { d } else { 0 }
}

/// Distance after moving one pixel in +x, the other coordinate having moved by `v`
pub open spec fn step_inc_x(dist: int, dx: int, dy: int, v: int) -> int {
    dist + dy + side_adj(v, dx)
}

/// Distance after moving one pixel in -x, the other coordinate having moved by `v`
pub open spec fn step_dec_x(dist: int, dx: int, dy: int, v: int) -> int {
    dist - dy + side_adj(v, dx)
}

/// Distance after moving one pixel in +y, the other coordinate having moved by `v`
pub open spec fn step_inc_y(dist: int, dx: int, dy: int, v: int) -> int {
    dist - dx - side_adj(v, dy)
}

/// Distance after moving one pixel in -y, the other coordinate having moved by `v`
pub open spec fn step_dec_y(dist: int, dx: int, dy: int, v: int) -> int {
    dist + dx - side_adj(v, dy)
}

/// A step back along an axis, the other coordinate moving back by as much,
/// undoes a step forward
pub proof fn lemma_steps_undo(dist: int, dx: int, dy: int, v: int)
    ensures
        step_dec_x(step_inc_x(dist, dx, dy, v), dx, dy, -v) == dist,
        step_inc_x(step_dec_x(dist, dx, dy, v), dx, dy, -v) == dist,
        step_dec_y(step_inc_y(dist, dx, dy, v), dx, dy, -v) == dist,
        step_inc_y(step_dec_y(dist, dx, dy, v), dx, dy, -v) == dist,
{
}

/// No single step of a distance can leave the 64-bit range
pub open spec fn step_fits(dist: int, dx: int, dy: int) -> bool {
    iabs(dist) + iabs(dx) + iabs(dy) <= i64::MAX
}

/// Incremental distance of a pixel to one or more lines
pub trait DistanceInterpolator: Sized {
    /// The current distance to the main line
    spec fn dist_spec(&self) -> int;

    /// A step in any direction stays in range
    spec fn step_ok(&self) -> bool;

    spec fn inc_x_spec(&self, dy: i64) -> Self;

    spec fn dec_x_spec(&self, dy: i64) -> Self;

    spec fn inc_y_spec(&self, dx: i64) -> Self;

    spec fn dec_y_spec(&self, dx: i64) -> Self;

    fn dist(&self) -> (r: i64)
        ensures
            r == self.dist_spec(),
    ;

    fn inc_x(&mut self, dy: i64)
        requires
            old(self).step_ok(),
        ensures
            *final(self) == old(self).inc_x_spec(dy),
            iabs(final(self).dist_spec()) <= i64::MAX,
    ;

    fn dec_x(&mut self, dy: i64)
        requires
            old(self).step_ok(),
        ensures
            *final(self) == old(self).dec_x_spec(dy),
            iabs(final(self).dist_spec()) <= i64::MAX,
    ;

    fn inc_y(&mut self, dx: i64)
        requires
            old(self).step_ok(),
        ensures
            *final(self) == old(self).inc_y_spec(dx),
            iabs(final(self).dist_spec()) <= i64::MAX,
    ;

    fn dec_y(&mut self, dx: i64)
        requires
            old(self).step_ok(),
        ensures
            *final(self) == old(self).dec_y_spec(dx),
            iabs(final(self).dist_spec()) <= i64::MAX,
    ;
}

/// Distance Interpolator v1
#[derive(Debug)]
pub struct DistanceInterpolator1 {
    /// x distance from point 1 to point 2 in Subpixel Coordinates
    pub dx: i64,
    /// y distance from point 1 to point 2 in Subpixel Coordinates
    pub dy: i64,
    /// Distance
    pub dist: i64,
}

impl DistanceInterpolator1 {
    pub open spec fn new_spec(x1: i64, y1: i64, x2: i64, y2: i64, x: i64, y: i64) -> Self {
        DistanceInterpolator1 {
            dx: ((x2 - x1) * 256) as i64,
            dy: ((y2 - y1) * 256) as i64,
            dist: hr_cross(x as int, y as int, x2 as int, y2 as int, x2 - x1, y2 - y1) as i64,
        }
    }

    /// Create a new Distance Interpolator
    ///
    /// The distance is the cross product of the pixel center offset from
    /// (`x2`,`y2`) with the line direction, in subpixel units.
    pub fn new(x1: i64, y1: i64, x2: i64, y2: i64, x: i64, y: i64) -> (s: Self)
        requires
            in_coord(x1 as int), in_coord(y1 as int), in_coord(x2 as int), in_coord(y2 as int),
            in_coord(x as int), in_coord(y as int),
        ensures
            s == Self::new_spec(x1, y1, x2, y2, x, y),
            s.dx == (x2 - x1) * 256,
            s.dy == (y2 - y1) * 256,
            s.dist == hr_cross(x as int, y as int, x2 as int, y2 as int, x2 - x1, y2 - y1),
    {
        let dx: i64 = x2 - x1;
        let dy: i64 = y2 - y1;
        let dist: i64 = hr_cross_exec(x, y, x2, y2, dx, dy);
        proof { lemma_shl8(dx); lemma_shl8(dy); }
        let dx: i64 = dx << POLY_SUBPIXEL_SHIFT;
        let dy: i64 = dy << POLY_SUBPIXEL_SHIFT;
        DistanceInterpolator1 { dist, dx, dy }
    }

    pub fn dx(&self) -> (r: i64)
        ensures
            r == self.dx,
    {
        self.dx
    }

    pub fn dy(&self) -> (r: i64)
        ensures
            r == self.dy,
    {
        self.dy
    }
}

impl DistanceInterpolator for DistanceInterpolator1 {
    open spec fn dist_spec(&self) -> int {
        self.dist as int
    }

    open spec fn step_ok(&self) -> bool {
        step_fits(self.dist as int, self.dx as int, self.dy as int)
    }

    open spec fn inc_x_spec(&self, v: i64) -> Self {
        DistanceInterpolator1 {
            dist: step_inc_x(self.dist as int, self.dx as int, self.dy as int, v as int) as i64,
            ..*self
        }
    }

    open spec fn dec_x_spec(&self, v: i64) -> Self {
        DistanceInterpolator1 {
            dist: step_dec_x(self.dist as int, self.dx as int, self.dy as int, v as int) as i64,
            ..*self
        }
    }

    open spec fn inc_y_spec(&self, v: i64) -> Self {
        DistanceInterpolator1 {
            dist: step_inc_y(self.dist as int, self.dx as int, self.dy as int, v as int) as i64,
            ..*self
        }
    }

    open spec fn dec_y_spec(&self, v: i64) -> Self {
        DistanceInterpolator1 {
            dist: step_dec_y(self.dist as int, self.dx as int, self.dy as int, v as int) as i64,
            ..*self
        }
    }

    /// Return the current distance
    fn dist(&self) -> (r: i64) {
        self.dist
    }

    /// Increment x
    ///
    /// Add dy to distance and adjust dist by dx value
    fn inc_x(&mut self, dy: i64) {
        self.dist += self.dy;
        if dy > 0 {
            self.dist -= self.dx;
        }
        if dy < 0 {
            self.dist += self.dx;
        }
    }

    /// Decrement x
    ///
    /// Remove dy to distance and adjust dist by dx value
    fn dec_x(&mut self, dy: i64) {
        self.dist -= self.dy;
        if dy > 0 {
            self.dist -= self.dx;
        }
        if dy < 0 {
            self.dist += self.dx;
        }
    }

    /// Increment y
    ///
    /// Remove `dx` to `distance` and adjust dist by `dy` value
    fn inc_y(&mut self, dx: i64) {
        self.dist -= self.dx;
        if dx > 0 {
            self.dist += self.dy;
        }
        if dx < 0 {
            self.dist -= self.dy;
        }
    }

    /// Decrement y
    ///
    /// Add `dx` to `distance` and adjust dist by `dy` value
    fn dec_y(&mut self, dx: i64) {
        self.dist += self.dx;
        if dx > 0 {
            self.dist += self.dy;
        }
        if dx < 0 {
            self.dist -= self.dy;
        }
    }
}

} // verus!

verus! {

/// Distances to a line and to the start (or end) of the line
#[derive(Debug)]
pub struct DistanceInterpolator2 {
    pub dx: i64,
    pub dy: i64,
    pub dx_start: i64,
    pub dy_start: i64,
    pub dist: i64,
    pub dist_start: i64,
}

impl DistanceInterpolator2 {
    pub open spec fn new_spec(x1: i64, y1: i64, x2: i64, y2: i64,
                              sx: i64, sy: i64, x: i64, y: i64, start: bool) -> Self {
        let dxs = if start { mr(sx as int) - mr(x1 as int) } else { mr(sx as int) - mr(x2 as int) };
        let dys = if start { mr(sy as int) - mr(y1 as int) } else { mr(sy as int) - mr(y2 as int) };
        DistanceInterpolator2 {
            dx: ((x2 - x1) * 256) as i64,
            dy: ((y2 - y1) * 256) as i64,
            dx_start: (dxs * 16) as i64,
            dy_start: (dys * 16) as i64,
            dist: hr_cross(x as int, y as int, x2 as int, y2 as int, x2 - x1, y2 - y1) as i64,
            dist_start: mr_cross(x as int, y as int, sx as int, sy as int, dxs, dys) as i64,
        }
    }

    /// Distances of pixel (`x`,`y`) to the line from (`x1`,`y1`) to
    /// (`x2`,`y2`), and to the line from the start (`start`) or end point to
    /// (`sx`,`sy`)
    pub fn new(x1: i64, y1: i64, x2: i64, y2: i64,
               sx: i64, sy: i64, x: i64, y: i64, start: bool) -> (s: Self)
        requires
            in_coord(x1 as int), in_coord(y1 as int), in_coord(x2 as int), in_coord(y2 as int),
            in_coord(x as int), in_coord(y as int), in_aux(sx as int), in_aux(sy as int),
        ensures
            s == Self::new_spec(x1, y1, x2, y2, sx, sy, x, y, start),
            ({
                let dxs = if start { mr(sx as int) - mr(x1 as int) } else { mr(sx as int) - mr(x2 as int) };
                let dys = if start { mr(sy as int) - mr(y1 as int) } else { mr(sy as int) - mr(y2 as int) };
                &&& s.dx == (x2 - x1) * 256
                &&& s.dy == (y2 - y1) * 256
                &&& s.dx_start == dxs * 16
                &&& s.dy_start == dys * 16
                &&& s.dist == hr_cross(x as int, y as int, x2 as int, y2 as int, x2 - x1, y2 - y1)
                &&& s.dist_start == mr_cross(x as int, y as int, sx as int, sy as int, dxs, dys)
            }),
    {
        let dx: i64 = x2 - x1;
        let dy: i64 = y2 - y1;
        let (dx_start, dy_start) = if start {
            (line_mr(sx) - line_mr(x1), line_mr(sy) - line_mr(y1))
        } else {
            (line_mr(sx) - line_mr(x2), line_mr(sy) - line_mr(y2))
        };
        let dist: i64 = hr_cross_exec(x, y, x2, y2, dx, dy);
        let dist_start: i64 = mr_cross_exec(x, y, sx, sy, dx_start, dy_start);
        proof { lemma_shl8(dx); lemma_shl8(dy); lemma_shl4(dx_start); lemma_shl4(dy_start); }
        let dx: i64 = dx << POLY_SUBPIXEL_SHIFT;
        let dy: i64 = dy << POLY_SUBPIXEL_SHIFT;
        let dx_start: i64 = dx_start << POLY_MR_SUBPIXEL_SHIFT;
        let dy_start: i64 = dy_start << POLY_MR_SUBPIXEL_SHIFT;
        DistanceInterpolator2 { dx, dy, dx_start, dy_start, dist, dist_start }
    }
}

impl DistanceInterpolator for DistanceInterpolator2 {
    open spec fn dist_spec(&self) -> int {
        self.dist as int
    }

    open spec fn step_ok(&self) -> bool {
        &&& step_fits(self.dist as int, self.dx as int, self.dy as int)
        &&& step_fits(self.dist_start as int, self.dx_start as int, self.dy_start as int)
    }

    open spec fn inc_x_spec(&self, v: i64) -> Self {
        DistanceInterpolator2 {
            dist: step_inc_x(self.dist as int, self.dx as int, self.dy as int, v as int) as i64,
            dist_start: step_inc_x(self.dist_start as int, self.dx_start as int, self.dy_start as int,
                v as int) as i64,
            ..*self
        }
    }

    open spec fn dec_x_spec(&self, v: i64) -> Self {
        DistanceInterpolator2 {
            dist: step_dec_x(self.dist as int, self.dx as int, self.dy as int, v as int) as i64,
            dist_start: step_dec_x(self.dist_start as int, self.dx_start as int, self.dy_start as int,
                v as int) as i64,
            ..*self
        }
    }

    open spec fn inc_y_spec(&self, v: i64) -> Self {
        DistanceInterpolator2 {
            dist: step_inc_y(self.dist as int, self.dx as int, self.dy as int, v as int) as i64,
            dist_start: step_inc_y(self.dist_start as int, self.dx_start as int, self.dy_start as int,
                v as int) as i64,
            ..*self
        }
    }

    open spec fn dec_y_spec(&self, v: i64) -> Self {
        DistanceInterpolator2 {
            dist: step_dec_y(self.dist as int, self.dx as int, self.dy as int, v as int) as i64,
            dist_start: step_dec_y(self.dist_start as int, self.dx_start as int, self.dy_start as int,
                v as int) as i64,
            ..*self
        }
    }

    fn dist(&self) -> (r: i64) {
        self.dist
    }

    fn inc_x(&mut self, dy: i64) {
        self.dist       += self.dy;
        self.dist_start += self.dy_start;
        if dy > 0 {
            self.dist       -= self.dx;
            self.dist_start -= self.dx_start;
        }
        if dy < 0 {
            self.dist       += self.dx;
            self.dist_start += self.dx_start;
        }
    }

    fn inc_y(&mut self, dx: i64) {
        self.dist       -= self.dx;
        self.dist_start -= self.dx_start;
        if dx > 0 {
            self.dist       += self.dy;
            self.dist_start += self.dy_start;
        }
        if dx < 0 {
            self.dist       -= self.dy;
            self.dist_start -= self.dy_start;
        }
    }

    fn dec_x(&mut self, dy: i64) {
        self.dist       -= self.dy;
        self.dist_start -= self.dy_start;
        if dy > 0 {
            self.dist       -= self.dx;
            self.dist_start -= self.dx_start;
        }
        if dy < 0 {
            self.dist       += self.dx;
            self.dist_start += self.dx_start;
        }
    }

    fn dec_y(&mut self, dx: i64) {
        self.dist       += self.dx;
        self.dist_start += self.dx_start;
        if dx > 0 {
            self.dist       += self.dy;
            self.dist_start += self.dy_start;
        }
        if dx < 0 {
            self.dist       -= self.dy;
            self.dist_start -= self.dy_start;
        }
    }
}

/// Distances to a line and to both of its ends
#[derive(Debug)]
pub struct DistanceInterpolator3 {
    pub dx: i64,
    pub dy: i64,
    pub dx_start: i64,
    pub dy_start: i64,
    pub dx_end: i64,
    pub dy_end: i64,
    pub dist: i64,
    pub dist_start: i64,
    pub dist_end: i64,
}

impl DistanceInterpolator3 {
    pub open spec fn new_spec(x1: i64, y1: i64, x2: i64, y2: i64,
                              sx: i64, sy: i64, ex: i64, ey: i64, x: i64, y: i64) -> Self {
        let dxs = mr(sx as int) - mr(x1 as int);
        let dys = mr(sy as int) - mr(y1 as int);
        let dxe = mr(ex as int) - mr(x2 as int);
        let dye = mr(ey as int) - mr(y2 as int);
        DistanceInterpolator3 {
            dx: ((x2 - x1) * 256) as i64,
            dy: ((y2 - y1) * 256) as i64,
            dx_start: (dxs * 16) as i64,
            dy_start: (dys * 16) as i64,
            dx_end: (dxe * 16) as i64,
            dy_end: (dye * 16) as i64,
            dist: hr_cross(x as int, y as int, x2 as int, y2 as int, x2 - x1, y2 - y1) as i64,
            dist_start: mr_cross(x as int, y as int, sx as int, sy as int, dxs, dys) as i64,
            dist_end: mr_cross(x as int, y as int, ex as int, ey as int, dxe, dye) as i64,
        }
    }

    /// Distances of pixel (`x`,`y`) to the line from (`x1`,`y1`) to
    /// (`x2`,`y2`), to the start line toward (`sx`,`sy`) and to the end line
    /// toward (`ex`,`ey`)
    pub fn new(x1: i64, y1: i64, x2: i64, y2: i64,
               sx: i64, sy: i64, ex: i64, ey: i64,
               x: i64, y: i64) -> (s: Self)
        requires
            in_coord(x1 as int), in_coord(y1 as int), in_coord(x2 as int), in_coord(y2 as int),
            in_coord(x as int), in_coord(y as int), in_aux(sx as int), in_aux(sy as int),
            in_aux(ex as int), in_aux(ey as int),
        ensures
            s == Self::new_spec(x1, y1, x2, y2, sx, sy, ex, ey, x, y),
            ({
                let dxs = mr(sx as int) - mr(x1 as int);
                let dys = mr(sy as int) - mr(y1 as int);
                let dxe = mr(ex as int) - mr(x2 as int);
                let dye = mr(ey as int) - mr(y2 as int);
                &&& s.dx == (x2 - x1) * 256
                &&& s.dy == (y2 - y1) * 256
                &&& s.dx_start == dxs * 16
                &&& s.dy_start == dys * 16
                &&& s.dx_end == dxe * 16
                &&& s.dy_end == dye * 16
                &&& s.dist == hr_cross(x as int, y as int, x2 as int, y2 as int, x2 - x1, y2 - y1)
                &&& s.dist_start == mr_cross(x as int, y as int, sx as int, sy as int, dxs, dys)
                &&& s.dist_end == mr_cross(x as int, y as int, ex as int, ey as int, dxe, dye)
            }),
    {
        let dx: i64 = x2 - x1;
        let dy: i64 = y2 - y1;
        let dx_start: i64 = line_mr(sx) - line_mr(x1);
        let dy_start: i64 = line_mr(sy) - line_mr(y1);
        let dx_end: i64 = line_mr(ex) - line_mr(x2);
        let dy_end: i64 = line_mr(ey) - line_mr(y2);

        let dist: i64 = hr_cross_exec(x, y, x2, y2, dx, dy);
        let dist_start: i64 = mr_cross_exec(x, y, sx, sy, dx_start, dy_start);
        let dist_end: i64 = mr_cross_exec(x, y, ex, ey, dx_end, dy_end);

        proof {
            lemma_shl8(dx); lemma_shl8(dy); lemma_shl4(dx_start); lemma_shl4(dy_start);
            lemma_shl4(dx_end); lemma_shl4(dy_end);
        }
        let dx: i64 = dx << POLY_SUBPIXEL_SHIFT;
        let dy: i64 = dy << POLY_SUBPIXEL_SHIFT;
        let dx_start: i64 = dx_start << POLY_MR_SUBPIXEL_SHIFT;
        let dy_start: i64 = dy_start << POLY_MR_SUBPIXEL_SHIFT;
        let dx_end: i64 = dx_end << POLY_MR_SUBPIXEL_SHIFT;
        let dy_end: i64 = dy_end << POLY_MR_SUBPIXEL_SHIFT;
        DistanceInterpolator3 {
            dx, dy, dx_start, dy_start, dx_end, dy_end, dist_start, dist_end, dist
        }
    }
}

impl DistanceInterpolator for DistanceInterpolator3 {
    open spec fn dist_spec(&self) -> int {
        self.dist as int
    }

    open spec fn step_ok(&self) -> bool {
        &&& step_fits(self.dist as int, self.dx as int, self.dy as int)
        &&& step_fits(self.dist_start as int, self.dx_start as int, self.dy_start as int)
        &&& step_fits(self.dist_end as int, self.dx_end as int, self.dy_end as int)
    }

    open spec fn inc_x_spec(&self, v: i64) -> Self {
        DistanceInterpolator3 {
            dist: step_inc_x(self.dist as int, self.dx as int, self.dy as int, v as int) as i64,
            dist_start: step_inc_x(self.dist_start as int, self.dx_start as int, self.dy_start as int,
                v as int) as i64,
            dist_end: step_inc_x(self.dist_end as int, self.dx_end as int, self.dy_end as int,
                v as int) as i64,
            ..*self
        }
    }

    open spec fn dec_x_spec(&self, v: i64) -> Self {
        DistanceInterpolator3 {
            dist: step_dec_x(self.dist as int, self.dx as int, self.dy as int, v as int) as i64,
            dist_start: step_dec_x(self.dist_start as int, self.dx_start as int, self.dy_start as int,
                v as int) as i64,
            dist_end: step_dec_x(self.dist_end as int, self.dx_end as int, self.dy_end as int,
                v as int) as i64,
            ..*self
        }
    }

    open spec fn inc_y_spec(&self, v: i64) -> Self {
        DistanceInterpolator3 {
            dist: step_inc_y(self.dist as int, self.dx as int, self.dy as int, v as int) as i64,
            dist_start: step_inc_y(self.dist_start as int, self.dx_start as int, self.dy_start as int,
                v as int) as i64,
            dist_end: step_inc_y(self.dist_end as int, self.dx_end as int, self.dy_end as int,
                v as int) as i64,
            ..*self
        }
    }

    open spec fn dec_y_spec(&self, v: i64) -> Self {
        DistanceInterpolator3 {
            dist: step_dec_y(self.dist as int, self.dx as int, self.dy as int, v as int) as i64,
            dist_start: step_dec_y(self.dist_start as int, self.dx_start as int, self.dy_start as int,
                v as int) as i64,
            dist_end: step_dec_y(self.dist_end as int, self.dx_end as int, self.dy_end as int,
                v as int) as i64,
            ..*self
        }
    }

    fn dist(&self) -> (r: i64) {
        self.dist
    }

    fn inc_x(&mut self, dy: i64) {
        self.dist       += self.dy;
        self.dist_start += self.dy_start;
        self.dist_end   += self.dy_end;
        if dy > 0 {
            self.dist       -= self.dx;
            self.dist_start -= self.dx_start;
            self.dist_end   -= self.dx_end;
        }
        if dy < 0 {
            self.dist       += self.dx;
            self.dist_start += self.dx_start;
            self.dist_end   += self.dx_end;
        }
    }

    fn inc_y(&mut self, dx: i64) {
        self.dist       -= self.dx;
        self.dist_start -= self.dx_start;
        self.dist_end   -= self.dx_end;
        if dx > 0 {
            self.dist       += self.dy;
            self.dist_start += self.dy_start;
            self.dist_end   += self.dy_end;
        }
        if dx < 0 {
            self.dist       -= self.dy;
            self.dist_start -= self.dy_start;
            self.dist_end   -= self.dy_end;
        }
    }

    fn dec_x(&mut self, dy: i64) {
        self.dist       -= self.dy;
        self.dist_start -= self.dy_start;
        self.dist_end   -= self.dy_end;
        if dy > 0 {
            self.dist       -= self.dx;
            self.dist_start -= self.dx_start;
            self.dist_end   -= self.dx_end;
        }
        if dy < 0 {
            self.dist       += self.dx;
            self.dist_start += self.dx_start;
            self.dist_end   += self.dx_end;
        }
    }

    fn dec_y(&mut self, dx: i64) {
        self.dist       += self.dx;
        self.dist_start += self.dx_start;
        self.dist_end   += self.dx_end;
        if dx > 0 {
            self.dist       += self.dy;
            self.dist_start += self.dy_start;
            self.dist_end   += self.dy_end;
        }
        if dx < 0 {
            self.dist       -= self.dy;
            self.dist_start -= self.dy_start;
            self.dist_end   -= self.dy_end;
        }
    }
}

} // verus!

verus! {

/// Line Parameters
#[derive(Debug, Copy, Clone)]
pub struct LineParameters {
    /// Starting x position
    pub x1: i64,
    /// Starting y position
    pub y1: i64,
    /// Ending x position
    pub x2: i64,
    /// Ending y position
    pub y2: i64,
    /// Distance from x1 to x2
    pub dx: i64,
    /// Distance from y1 to y2
    pub dy: i64,
    /// Direction of the x coordinate (positive or negative)
    pub sx: i64,
    /// Direction of the y coordinate (positive or negative)
    pub sy: i64,
    /// If line is more vertical than horizontal
    pub vertical: bool,
    /// Increment of the line, `sy` if vertical, else `sx`
    pub inc: i64,
    /// Length of the line
    pub len: i64,
    /// Identifier of which direction the line is headed
    ///   bit 1 - vertical
    ///   bit 2 - sx < 0
    ///   bit 3 - sy < 0
    pub octant: usize,
}

/// Diagonal quadrant of each octant
pub open spec fn quadrant_of(octant: int) -> u8 {
    if octant == 0 || octant == 4 { 0 }
    else if octant == 1 || octant == 3 { 1 }
    else if octant == 2 || octant == 6 { 2 }
    else { 3 }
}

impl LineParameters {
    /// The parameters of the line from (`x1`,`y1`) to (`x2`,`y2`) of length `len`
    pub open spec fn new_spec(x1: i64, y1: i64, x2: i64, y2: i64, len: i64) -> LineParameters {
        let dx = iabs(x2 - x1);
        let dy = iabs(y2 - y1);
        let vertical = dy >= dx;
        let sx: i64 = if x2 > x1 { 1i64 } else { -1i64 };
        let sy: i64 = if y2 > y1 { 1i64 } else { -1i64 };
        LineParameters {
            x1, y1, x2, y2, len,
            dx: dx as i64,
            dy: dy as i64,
            vertical,
            sx,
            sy,
            inc: if vertical { sy } else { sx },
            octant: ((if sy < 0 { 4int } else { 0 }) + (if sx < 0 { 2int } else { 0 })
                + (if vertical { 1int } else { 0 })) as usize,
        }
    }

    /// End points in range
    pub open spec fn in_range(&self) -> bool {
        &&& in_coord(self.x1 as int)
        &&& in_coord(self.y1 as int)
        &&& in_coord(self.x2 as int)
        &&& in_coord(self.y2 as int)
    }

    /// Whether these parameters are those `new` makes for end points in
    /// range and a length within `LEN_LIMIT`
    pub fn is_valid(&self) -> (r: bool)
        ensures
            r == self.wf(),
    {
        let lim = crate::COORD_LIMIT;
        if self.x1 < -lim || self.x1 > lim || self.y1 < -lim || self.y1 > lim
            || self.x2 < -lim || self.x2 > lim || self.y2 < -lim || self.y2 > lim {
            return false;
        }
        if self.len < -LEN_LIMIT || self.len > LEN_LIMIT {
            return false;
        }
        let n = LineParameters::new(self.x1, self.y1, self.x2, self.y2, self.len);
        n.x1 == self.x1 && n.y1 == self.y1 && n.x2 == self.x2 && n.y2 == self.y2 && n.len == self.len
            && n.dx == self.dx && n.dy == self.dy && n.vertical == self.vertical && n.sx == self.sx
            && n.sy == self.sy && n.inc == self.inc && n.octant == self.octant
    }

    /// Create a new Line Parameter
    pub fn new(x1: i64, y1: i64, x2: i64, y2: i64, len: i64) -> (s: Self)
        requires
            iabs(x2 - x1) <= i64::MAX,
            iabs(y2 - y1) <= i64::MAX,
        ensures
            s == Self::new_spec(x1, y1, x2, y2, len),
    {
        let dx: i64 = if x2 >= x1 { x2 - x1 } else { x1 - x2 };
        let dy: i64 = if y2 >= y1 { y2 - y1 } else { y1 - y2 };
        let vertical = dy >= dx;
        let sx: i64 = if x2 > x1 { 1 } else { -1 };
        let sy: i64 = if y2 > y1 { 1 } else { -1 };
        let inc: i64 = if vertical { sy } else { sx };
        let octant: usize = (if sy < 0 { 4 } else { 0 }) + (if sx < 0 { 2 } else { 0 })
            + (if vertical { 1 } else { 0 });
        LineParameters { x1, y1, x2, y2, len, dx, dy, vertical, sx, sy, inc, octant }
    }

    /// Return the general direction of the line, see octant description
    pub fn diagonal_quadrant(&self) -> (r: u8)
        requires
            self.octant < 8,
        ensures
            r == quadrant_of(self.octant as int),
    {
        let quads: [u8; 8] = [0, 1, 2, 1, 0, 3, 2, 3];
        quads[self.octant]
    }

    /// Split a Line Parameter into two parts
    pub fn divide(&self) -> (r: (LineParameters, LineParameters))
        requires
            fits_i64(self.x1 + self.x2),
            fits_i64(self.y1 + self.y2),
            iabs(self.x2 - self.x1) <= i64::MAX,
            iabs(self.y2 - self.y1) <= i64::MAX,
        ensures
            ({
                let xmid = crate::fixed::tdiv(self.x1 + self.x2, 2) as i64;
                let ymid = crate::fixed::tdiv(self.y1 + self.y2, 2) as i64;
                let len2 = crate::fixed::tdiv(self.len as int, 2) as i64;
                &&& r.0 == Self::new_spec(self.x1, self.y1, xmid, ymid, len2)
                &&& r.1 == Self::new_spec(xmid, ymid, self.x2, self.y2, len2)
                &&& self.in_range() ==> in_coord(xmid as int) && in_coord(ymid as int)
            }),
    {
        let xmid: i64 = (self.x1 + self.x2) / 2;
        let ymid: i64 = (self.y1 + self.y2) / 2;
        let len2: i64 = self.len / 2;

        let lp1 = LineParameters::new(self.x1, self.y1, xmid, ymid, len2);
        let lp2 = LineParameters::new(xmid, ymid, self.x2, self.y2, len2);

        (lp1, lp2)
    }
}

} // verus!

verus! {

/// `n / d` rounded to the nearest integer, halves away from zero; a zero
/// divisor gives the extreme value of the sign of `n`
pub open spec fn round_div(n: int, d: int) -> int {
    if d == 0 {
        if n > 0 { i64::MAX as int } else if n < 0 { i64::MIN as int } else { 0 }
    } else {
        let q = (2 * iabs(n) + iabs(d)) / (2 * iabs(d));
        if (n >= 0) == (d > 0) { q } else { -q }
    }
}

impl LineParameters {
    /// The signed distance, in subpixels, of (`x`,`y`) from the line through
    /// the end point, scaled by the line length
    pub open spec fn bisectrix_offset(&self, x: int, y: int) -> int {
        round_div((x - self.x2) * (self.y2 - self.y1) - (y - self.y2) * (self.x2 - self.x1),
            self.len as int)
    }

    /// Calculate demoninator of line-line intersection
    ///
    /// If value is small, lines are parallel or coincident
    pub fn fix_degenerate_bisectrix_setup(&self, x: i64, y: i64) -> (r: i64)
        requires
            self.in_range(),
            in_aux(x as int), in_aux(y as int),
        ensures
            r == self.bisectrix_offset(x as int, y as int),
    {
        let dx: i64 = self.x2 - self.x1;
        let dy: i64 = self.y2 - self.y1;
        let dx0: i64 = x - self.x2;
        let dy0: i64 = y - self.y2;
        proof {
            lemma_mul_bound(dx0 as int, dy as int, 0x500_0000, 0x200_0000);
            lemma_mul_bound(dy0 as int, dx as int, 0x500_0000, 0x200_0000);
        }
        let n: i128 = (dx0 * dy - dy0 * dx) as i128;
        let d: i128 = self.len as i128;
        if d == 0 {
            if n > 0 { i64::MAX } else if n < 0 { i64::MIN } else { 0 }
        } else {
            let an: i128 = if n < 0 { -n } else { n };
            let ad: i128 = if d < 0 { -d } else { d };
            let q: i128 = (2 * an + ad) / (2 * ad);
            assert(q <= 2 * an + ad) by (nonlinear_arith) requires ad > 0, an >= 0, q == (2 * an + ad) / (2 * ad);
            assert(q <= an + 1) by (nonlinear_arith) requires ad > 0, an >= 0, q == (2 * an + ad) / (2 * ad);
            if (n >= 0) == (d > 0) {
                q as i64
            } else {
                (-q) as i64
            }
        }
    }

    /// Move an end point bisectrix that lies on the line
    ///
    /// If point (`x`,`y`) is on the line, or sufficiently close, return a new value
    /// otherwise return the point
    ///
    /// New point:
    ///   (x2 + dy, y2 - dx)
    pub fn fix_degenerate_bisectrix_end(&self, x: i64, y: i64) -> (r: (i64, i64))
        requires
            self.in_range(),
            in_aux(x as int), in_aux(y as int),
        ensures
            r == (if self.bisectrix_offset(x as int, y as int) < 128 {
                ((self.x2 + (self.y2 - self.y1)) as i64, (self.y2 - (self.x2 - self.x1)) as i64)
            } else {
                (x, y)
            }),
    {
        let d: i64 = self.fix_degenerate_bisectrix_setup(x, y);
        if d < POLY_SUBPIXEL_SCALE / 2 {
            (self.x2 + (self.y2 - self.y1), self.y2 - (self.x2 - self.x1))
        } else {
            (x, y)
        }
    }

    /// Move an begin point bisectrix that lies on the line
    ///
    /// If point (`x`,`y`) is on the line, or sufficiently close, return a new value
    /// otherwise return the point
    ///
    /// New point:
    ///   (x1 + dy, y1 - dx)
    pub fn fix_degenerate_bisectrix_start(&self, x: i64, y: i64) -> (r: (i64, i64))
        requires
            self.in_range(),
            in_aux(x as int), in_aux(y as int),
        ensures
            r == (if self.bisectrix_offset(x as int, y as int) < 128 {
                ((self.x1 + (self.y2 - self.y1)) as i64, (self.y1 - (self.x2 - self.x1)) as i64)
            } else {
                (x, y)
            }),
    {
        let d: i64 = self.fix_degenerate_bisectrix_setup(x, y);
        if d < POLY_SUBPIXEL_SCALE / 2 {
            (self.x1 + (self.y2 - self.y1), self.y1 - (self.x2 - self.x1))
        } else {
            (x, y)
        }
    }
}

} // verus!

verus! {

/// Largest magnitude of the length of a line given to an interpolator
///
/// Lengths of lines between points in range are far smaller; the bound
/// keeps a distance scaled by the length, and its rounding, exact.
pub const LEN_LIMIT: i64 = 0x100_0000_0000;

/// Largest subpixel width of a line (the sentinel distance bounds every width)
pub const WIDTH_LIMIT: i64 = 0x7FFF_0000;

/// Largest magnitude of an entry of the table of distances
pub const DIST_LIMIT: i64 = 0x100_0000_0000;

/// The sentinel that ends the table of distances
pub const DIST_SENTINEL: i64 = 0x7FFF_0000;

impl LineParameters {
    /// Produced by `new` from end points in range
    pub open spec fn wf(&self) -> bool {
        &&& self.in_range()
        &&& *self == Self::new_spec(self.x1, self.y1, self.x2, self.y2, self.len)
        &&& iabs(self.len as int) <= LEN_LIMIT
    }
}

/// The `i`-th entry of the distance table: the `i`-th value of the
/// interpolator `f` while all earlier values stay below `stop`, else 0
pub open spec fn dist_entry(f: (int, int, int, int, int), stop: int, i: int) -> int {
    if (forall|j: int| 0 <= j < i ==> #[trigger] crate::render::dda_inc_n(f, j as nat).4 < stop) {
        crate::render::dda_inc_n(f, i as nat).4
    } else {
        0
    }
}

/// Line Interpolator AA
#[derive(Debug)]
pub struct LineInterpolatorAA {
    /// Line Parameters
    pub lp: LineParameters,
    /// Line Interpolator
    pub li: LineInterpolator,
    /// Length of Line
    pub len: i64,
    /// Current x position of line in pixels
    pub x: i64,
    /// Current y position of line in pixels
    pub y: i64,
    /// Previous x position in pixels
    pub old_x: i64,
    /// Previous y position in pixels
    pub old_y: i64,
    /// Number of pixels from start to end points
    ///  in either the `y` or `x` direction
    pub count: i64,
    /// Width of line in subpixels width
    pub width: i64,
    /// Maximum width of line in pixels
    pub max_extent: i64,
    pub step: i64,
    pub dist: Vec<i64>,
    pub covers: Vec<u64>,
}

impl LineInterpolatorAA {
    /// The interpolator that fills the distance table
    pub open spec fn table_dda(lp: LineParameters) -> (int, int, int, int, int) {
        let dd = if lp.vertical { lp.dy * 256 } else { lp.dx * 256 };
        LineInterpolator::new_spec(0, dd, lp.len as int)
    }

    /// The interpolator along the line
    pub open spec fn line_dda(lp: LineParameters) -> (int, int, int, int, int) {
        let y1 = if lp.vertical { (lp.x2 - lp.x1) * 256 } else { (lp.y2 - lp.y1) * 256 };
        let n = if lp.vertical { iabs(lp.y2 - lp.y1) } else { iabs(lp.x2 - lp.x1) + 1 };
        LineInterpolator::back_spec(y1, n)
    }

    /// The table of distances is well formed
    pub open spec fn tables_ok(&self) -> bool {
        &&& self.dist@.len() == 65
        &&& self.covers@.len() == 132
        &&& self.dist@[64] == DIST_SENTINEL
        &&& 0 <= self.width < WIDTH_LIMIT
        &&& forall|j: int| 0 <= j < 65 ==> iabs(#[trigger] self.dist@[j] as int) <= DIST_LIMIT
    }

    /// The fields that `new(lp, subpixel_width)` sets and that stepping
    /// back along the line leaves alone
    pub open spec fn setup(&self, lp: LineParameters, subpixel_width: i64) -> bool {
        &&& self.lp == lp
        &&& self.len == (if lp.vertical == (lp.inc > 0) { -lp.len } else { lp.len as int })
        &&& self.count == (if lp.vertical { iabs(lp.y2 / 256 - lp.y1 / 256) }
                else { iabs(lp.x2 / 256 - lp.x1 / 256) })
        &&& self.width == subpixel_width
        &&& self.max_extent == (subpixel_width + 255) / 256
        &&& self.tables_ok()
        &&& forall|i: int| 0 <= i < 64 ==> #[trigger] self.dist@[i]
                == dist_entry(Self::table_dda(lp), subpixel_width + 512, i)
        &&& forall|i: int| 0 <= i < 132 ==> #[trigger] self.covers@[i] == 0
    }

    /// Everything that `new(lp, subpixel_width)` sets but the line interpolator
    pub open spec fn fresh(&self, lp: LineParameters, subpixel_width: i64) -> bool {
        &&& self.setup(lp, subpixel_width)
        &&& self.x == lp.x1 / 256
        &&& self.y == lp.y1 / 256
        &&& self.old_x == self.x
        &&& self.old_y == self.y
        &&& self.step == 0
    }

    /// Create new Line Interpolator AA
    pub fn new(lp: LineParameters, subpixel_width: i64) -> (s: Self)
        requires
            lp.wf(),
            0 <= subpixel_width < WIDTH_LIMIT,
        ensures
            s.fresh(lp, subpixel_width),
            s.li.fields() == Self::line_dda(lp),
            s.lp == lp,
            s.len == (if lp.vertical == (lp.inc > 0) { -lp.len } else { lp.len as int }),
            s.x == lp.x1 / 256,
            s.y == lp.y1 / 256,
            s.old_x == s.x,
            s.old_y == s.y,
            s.count == (if lp.vertical { iabs(lp.y2 / 256 - lp.y1 / 256) }
                else { iabs(lp.x2 / 256 - lp.x1 / 256) }),
            s.width == subpixel_width,
            s.max_extent == (subpixel_width + 255) / 256,
            s.step == 0,
            s.li.fields() == Self::line_dda(lp),
            s.tables_ok(),
            forall|i: int| 0 <= i < 64 ==> #[trigger] s.dist@[i]
                == dist_entry(Self::table_dda(lp), subpixel_width + 512, i),
            forall|i: int| 0 <= i < 132 ==> #[trigger] s.covers@[i] == 0,
    {
        let len: i64 = if lp.vertical == (lp.inc > 0) { -lp.len } else { lp.len };
        proof {
            crate::fixed::lemma_shr8(lp.x1); crate::fixed::lemma_shr8(lp.y1);
            crate::fixed::lemma_shr8(lp.x2); crate::fixed::lemma_shr8(lp.y2);
        }
        let x: i64 = lp.x1 >> POLY_SUBPIXEL_SHIFT;
        let y: i64 = lp.y1 >> POLY_SUBPIXEL_SHIFT;
        let old_x: i64 = x;
        let old_y: i64 = y;
        let count: i64 = if lp.vertical {
            let d: i64 = (lp.y2 >> POLY_SUBPIXEL_SHIFT) - y;
            if d < 0 { -d } else { d }
        } else {
            let d: i64 = (lp.x2 >> POLY_SUBPIXEL_SHIFT) - x;
            if d < 0 { -d } else { d }
        };
        let width: i64 = subpixel_width;
        proof { crate::fixed::lemma_shr8((width + POLY_SUBPIXEL_MASK) as i64); }
        let max_extent: i64 = (width + POLY_SUBPIXEL_MASK) >> POLY_SUBPIXEL_SHIFT;
        let step: i64 = 0;
        proof { lemma_shl8((lp.x2 - lp.x1) as i64); lemma_shl8((lp.y2 - lp.y1) as i64); lemma_shl8(lp.dx); lemma_shl8(lp.dy); }
        let y1: i64 = if lp.vertical {
            (lp.x2 - lp.x1) << POLY_SUBPIXEL_SHIFT
        } else {
            (lp.y2 - lp.y1) << POLY_SUBPIXEL_SHIFT
        };
        let n: i64 = if lp.vertical {
            let d: i64 = lp.y2 - lp.y1;
            if d < 0 { -d } else { d }
        } else {
            let d: i64 = lp.x2 - lp.x1;
            (if d < 0 { -d } else { d }) + 1
        };

        // Setup Number Interpolator from 0 .. y1 with n segments
        let m_li = LineInterpolator::new_back_adjusted_2(y1, n);

        // Length of line in subpixels
        let mut dd: i64 = if lp.vertical { lp.dy } else { lp.dx };
        dd = dd << POLY_SUBPIXEL_SHIFT; // to subpixels
        let mut li = LineInterpolator::new_foward_adjusted(0, dd, lp.len);
        let ghost f = li.fields();

        // Get Distances along the line
        let mut dist: Vec<i64> = vec![0i64; MAX_HALF_WIDTH + 1];
        let stop: i64 = width + POLY_SUBPIXEL_SCALE * 2;
        let mut i: usize = 0;
        proof {
            crate::fixed::lemma_tdiv_bounds(dd as int, if lp.len < 1 { 1 } else { lp.len as int });
        }
        proof { crate::render::lemma_dda_inc_n_bounds(f, 0); }
        while i < MAX_HALF_WIDTH
            invariant_except_break
                forall|j: int| 0 <= j < i ==> #[trigger] dist@[j] == crate::render::dda_inc_n(f, j as nat).4,
                forall|j: int| i <= j < 65 ==> #[trigger] dist@[j] == 0,
            invariant
                0 <= i <= 64,
                dist@.len() == 65,
                li.fields() == crate::render::dda_inc_n(f, i as nat),
                f == Self::table_dda(lp),
                iabs(f.1) <= 0x2_0000_0001, iabs(f.2) <= 2 * LEN_LIMIT, iabs(f.3) <= 2 * LEN_LIMIT,
                iabs(f.0) <= LEN_LIMIT, f.4 == 0,
                forall|j: int| 0 <= j < i ==> #[trigger] crate::render::dda_inc_n(f, j as nat).4 < stop,
                stop == subpixel_width + 512,
                forall|j: int| 0 <= j < 65 ==> iabs(#[trigger] dist@[j] as int) <= DIST_LIMIT,
            ensures
                dist@.len() == 65,
                forall|j: int| 0 <= j < 65 ==> iabs(#[trigger] dist@[j] as int) <= DIST_LIMIT,
                forall|j: int| 0 <= j < 64 ==> #[trigger] dist@[j] == dist_entry(f, stop as int, j),
            decreases 64 - i,
        {
            proof {
                crate::render::lemma_dda_inc_n_bounds(f, i as nat);
                lemma_mul_bound(i as int, iabs(f.1) + 1, 64, 0x2_0000_0002);
            }
            dist.set(i, li.y);
            if li.y >= stop {
                proof {
                    assert forall|j: int| 0 <= j < 64 implies #[trigger] dist@[j] == dist_entry(f, stop as int, j) by {
                        if j > i {
                            let k = i as int;
                            assert(0 <= k < j && !(crate::render::dda_inc_n(f, k as nat).4 < stop));
                        } else {
                            assert forall|k: int| 0 <= k < j implies #[trigger] crate::render::dda_inc_n(f, k as nat).4 < stop by {}
                        }
                    }
                }
                break;
            }
            proof {
                crate::render::lemma_dda_inc_n_bounds(f, i as nat);
                lemma_mul_bound(i as int, iabs(f.1) + 1, 64, 0x2_0000_0002);
                lemma_mul_bound(i as int, iabs(f.2) + iabs(f.0), 64, 3 * LEN_LIMIT);
            }
            li.inc();
            i = i + 1;
        }
        dist.set(MAX_HALF_WIDTH, DIST_SENTINEL);
        // Setup covers to 0
        let covers: Vec<u64> = vec![0u64; MAX_HALF_WIDTH * 2 + 4];
        LineInterpolatorAA {
            lp, li: m_li, len, x, y, old_x, old_y, count,
            width, max_extent, step,
            dist, covers
        }
    }
}

} // verus!

verus! {

impl LineInterpolatorAA {
    /// No single step of the interpolator leaves the 64-bit range
    pub open spec fn steppable(&self) -> bool {
        &&& self.li.in_range()
        &&& -crate::render::DDA_LIMIT <= self.li.y + self.li.left + 1 <= crate::render::DDA_LIMIT
        &&& -crate::render::DDA_LIMIT <= self.li.y - self.li.left - 1 <= crate::render::DDA_LIMIT
        &&& self.lp.in_range()
        &&& -crate::render::DDA_LIMIT <= self.x <= crate::render::DDA_LIMIT
        &&& -crate::render::DDA_LIMIT <= self.y <= crate::render::DDA_LIMIT
        &&& -crate::render::DDA_LIMIT <= self.old_x <= crate::render::DDA_LIMIT
        &&& -crate::render::DDA_LIMIT <= self.old_y <= crate::render::DDA_LIMIT
        &&& -1 <= self.lp.inc <= 1
        &&& self.len != 0
        &&& iabs(self.len as int) <= LEN_LIMIT
    }

    /// The pixel row after a horizontal step
    pub open spec fn y_after_hor(&self) -> int {
        (self.lp.y1 + crate::render::dda_inc(self.li.fields()).4) / 256
    }

    /// The pixel column after a vertical step
    pub open spec fn x_after_ver(&self) -> int {
        (self.lp.x1 + crate::render::dda_inc(self.li.fields()).4) / 256
    }

    /// A step leaves the pixel position well inside the 64-bit range
    pub proof fn lemma_step_position(&self)
        requires
            self.steppable(),
        ensures
            iabs(self.y_after_hor()) <= 0x1_0000_0000_0000,
            iabs(self.x_after_ver()) <= 0x1_0000_0000_0000,
    {
        let ny = crate::render::dda_inc(self.li.fields()).4;
        assert(-crate::render::DDA_LIMIT - 1 <= ny <= crate::render::DDA_LIMIT);
        assert(-0x2000_0000_0000_0000 <= self.lp.y1 + ny <= 0x2000_0000_0000_0000);
        assert(-0x2000_0000_0000_0000 <= self.lp.x1 + ny <= 0x2000_0000_0000_0000);
    }

    /// The distance interpolator after a horizontal step
    pub open spec fn di_after_hor<DI: DistanceInterpolator>(&self, di: DI) -> DI {
        if self.lp.inc > 0 {
            di.inc_x_spec((self.y_after_hor() - self.old_y) as i64)
        } else {
            di.dec_x_spec((self.y_after_hor() - self.old_y) as i64)
        }
    }

    /// The distance interpolator after a vertical step
    pub open spec fn di_after_ver<DI: DistanceInterpolator>(&self, di: DI) -> DI {
        if self.lp.inc > 0 {
            di.inc_y_spec((self.x_after_ver() - self.old_x) as i64)
        } else {
            di.dec_y_spec((self.x_after_ver() - self.old_x) as i64)
        }
    }

    /// Everything but the position and the line interpolator is unchanged
    pub open spec fn same_frame(&self, other: &Self) -> bool {
        &&& self.lp == other.lp
        &&& self.len == other.len
        &&& self.count == other.count
        &&& self.width == other.width
        &&& self.max_extent == other.max_extent
        &&& self.step == other.step
        &&& self.dist == other.dist
        &&& self.covers == other.covers
    }

    /// Step the Line forward horizontally
    ///
    /// Returns the distance of the new pixel from the line, scaled by the
    /// line length
    pub fn step_hor_base<DI>(&mut self, di: &mut DI) -> (r: i64)
        where DI: DistanceInterpolator
        requires
            old(self).steppable(),
            old(di).step_ok(),
        ensures
            final(self).li.fields() == old(self).li.inc_spec(),
            final(self).x == old(self).x + old(self).lp.inc,
            final(self).y == old(self).y_after_hor(),
            final(self).old_y == final(self).y,
            final(self).old_x == old(self).old_x,
            final(self).same_frame(old(self)),
            *final(di) == old(self).di_after_hor(*old(di)),
            r == crate::fixed::tquot(final(di).dist_spec(), old(self).len as int),
    {
        // Increment the Interpolator
        self.li.inc();
        // Increment the x by the LineParameter increment, typically +1 or -1
        self.x += self.lp.inc;
        // Set y value to initial + new y value
        proof { crate::fixed::lemma_shr8((self.lp.y1 + self.li.y) as i64); }
        self.y = (self.lp.y1 + self.li.y) >> POLY_SUBPIXEL_SHIFT;
        // "Increment" the distance interpolator
        if self.lp.inc > 0 {
            di.inc_x(self.y - self.old_y);
        } else {
            di.dec_x(self.y - self.old_y);
        }
        // Save current point
        self.old_y = self.y;
        // Return some measure of distance
        let d: i64 = di.dist();
        proof { crate::fixed::lemma_tdiv_bounds(d as int, iabs(self.len as int)); }
        if self.len > 0 { d / self.len } else { -(d / -self.len) }
    }

    /// Step the Line forward vertically
    ///
    /// Returns the distance of the new pixel from the line, scaled by the
    /// line length
    pub fn step_ver_base<DI>(&mut self, di: &mut DI) -> (r: i64)
        where DI: DistanceInterpolator
        requires
            old(self).steppable(),
            old(di).step_ok(),
        ensures
            final(self).li.fields() == old(self).li.inc_spec(),
            final(self).y == old(self).y + old(self).lp.inc,
            final(self).x == old(self).x_after_ver(),
            final(self).old_x == final(self).x,
            final(self).old_y == old(self).old_y,
            final(self).same_frame(old(self)),
            *final(di) == old(self).di_after_ver(*old(di)),
            r == crate::fixed::tquot(final(di).dist_spec(), old(self).len as int),
    {
        self.li.inc();
        self.y += self.lp.inc;
        proof { crate::fixed::lemma_shr8((self.lp.x1 + self.li.y) as i64); }
        self.x = (self.lp.x1 + self.li.y) >> POLY_SUBPIXEL_SHIFT;

        if self.lp.inc > 0 {
            di.inc_y(self.x - self.old_x);
        } else {
            di.dec_y(self.x - self.old_x);
        }

        self.old_x = self.x;
        let d: i64 = di.dist();
        proof { crate::fixed::lemma_tdiv_bounds(d as int, iabs(self.len as int)); }
        if self.len > 0 { d / self.len } else { -(d / -self.len) }
    }
}

} // verus!

verus! {

impl LineInterpolatorAA {
    /// The spread of coverages around a pixel at distance `s1` ends inside
    /// the table of distances, on both sides
    pub open spec fn spread_ends(&self, s1: int) -> bool {
        &&& exists|k: int| 1 <= k <= 64 && #[trigger] self.dist@[k] - s1 > self.width
        &&& exists|k: int| 1 <= k <= 64 && #[trigger] self.dist@[k] + s1 > self.width
        &&& iabs(s1) <= i64::MAX - DIST_LIMIT
    }

    /// All fields but the coverages are the same
    pub open spec fn same_but_covers(&self, other: &Self) -> bool {
        &&& self.lp == other.lp
        &&& self.li == other.li
        &&& self.len == other.len
        &&& self.x == other.x
        &&& self.y == other.y
        &&& self.old_x == other.old_x
        &&& self.old_y == other.old_y
        &&& self.count == other.count
        &&& self.width == other.width
        &&& self.max_extent == other.max_extent
        &&& self.step == other.step
        &&& self.dist == other.dist
        &&& self.covers@.len() == other.covers@.len()
    }

    /// The distance of the pixel after a horizontal step, as `step_hor_base` returns it
    pub open spec fn s1_hor<DI: DistanceInterpolator>(&self, di: DI) -> int {
        crate::fixed::tquot(self.di_after_hor(di).dist_spec(), self.len as int)
    }

    /// The distance of the pixel after a vertical step, as `step_ver_base` returns it
    pub open spec fn s1_ver<DI: DistanceInterpolator>(&self, di: DI) -> int {
        crate::fixed::tquot(self.di_after_ver(di).dist_spec(), self.len as int)
    }

    /// Ready for a full step of an outline interpolator
    pub open spec fn ready(&self) -> bool {
        &&& self.steppable()
        &&& self.tables_ok()
        &&& -i64::MAX <= self.step - 1
        &&& self.step + 1 <= i64::MAX
    }
}

/// The interpolator along a line stays far inside the 64-bit range
pub proof fn lemma_line_dda_bounds(lp: LineParameters)
    requires
        lp.wf(),
    ensures
        ({
            let f = LineInterpolatorAA::line_dda(lp);
            &&& 0 < f.0 <= 0x200_0001
            &&& iabs(f.1) <= 257
            &&& iabs(f.2) <= 0x400_0002
            &&& iabs(f.3) <= 0x400_0002
            &&& f.4 == 0
        }),
{
    let y1 = if lp.vertical { (lp.x2 - lp.x1) * 256 } else { (lp.y2 - lp.y1) * 256 };
    let n = if lp.vertical { iabs(lp.y2 - lp.y1) } else { iabs(lp.x2 - lp.x1) + 1 };
    let cnt = if n < 1 { 1 } else { n };
    crate::fixed::lemma_tdiv_bounds(y1, cnt);
    vstd::arithmetic::div_mod::lemma_div_is_ordered_by_denominator(iabs(y1), 1, cnt);
    // |y1| <= 256 * cnt, so the quotient is at most 256 in magnitude
    assert(iabs(y1) <= 256 * cnt);
    vstd::arithmetic::div_mod::lemma_div_is_ordered(iabs(y1), 256 * cnt, cnt);
    vstd::arithmetic::div_mod::lemma_div_by_multiple(256, cnt);
}

/// Line Interpolator0
///
#[derive(Debug)]
pub struct AA0 {
    /// Distance Interpolator v1
    pub di: DistanceInterpolator1,
    /// Line Interpolator AA-version
    pub li: LineInterpolatorAA,
}

impl AA0 {
    /// Create a new Line Interpolator-0
    pub fn new(lp: LineParameters, subpixel_width: i64) -> (s: Self)
        requires
            lp.wf(),
            0 <= subpixel_width < WIDTH_LIMIT,
        ensures
            s.li.fresh(lp, subpixel_width),
            ({
                let f = LineInterpolatorAA::line_dda(lp);
                s.li.li.fields() == (f.0, f.1, f.2, f.3 - f.0, f.4)
            }),
            s.di == DistanceInterpolator1::new_spec(lp.x1, lp.y1, lp.x2, lp.y2,
                ((lp.x1 / 256) * 256) as i64, ((lp.y1 / 256) * 256) as i64),
    {
        let mut li = LineInterpolatorAA::new(lp, subpixel_width);
        proof { lemma_line_dda_bounds(lp); }
        li.li.adjust_forward();
        proof { crate::fixed::lemma_mask8(lp.x1); crate::fixed::lemma_mask8(lp.y1); }
        AA0 { li, di: DistanceInterpolator1::new(lp.x1, lp.y1, lp.x2, lp.y2,
                                                  lp.x1 & !POLY_SUBPIXEL_MASK,
                                                  lp.y1 & !POLY_SUBPIXEL_MASK)
        }
    }

    /// Size of the Interpolation
    pub fn count(&self) -> (r: i64)
        ensures
            r == self.li.count,
    {
        self.li.count
    }

    /// Return if the line is more Vertical than horizontal
    pub fn vertical(&self) -> (r: bool)
        ensures
            r == self.li.lp.vertical,
    {
        self.li.lp.vertical
    }

    /// Conduct a horizontal step, used for "horizontal lines"
    ///
    /// Draws the column of coverages around the next pixel of the line and
    /// returns whether steps remain.
    pub fn step_hor<R>(&mut self, ren: &mut R) -> (r: bool)
        where R: RenderOutline
        requires
            old(self).li.ready(),
            old(self).di.step_ok(),
            old(self).li.spread_ends(old(self).li.s1_hor(old(self).di)),
            covers_queryable(old(ren), old(self).li.dist@, old(self).li.width as int,
                old(self).li.s1_hor(old(self).di)),
            spans_drawable(old(ren), true),
        ensures
            final(self).li.li.fields() == old(self).li.li.inc_spec(),
            final(self).li.x == old(self).li.x + old(self).li.lp.inc,
            final(self).li.y == old(self).li.y_after_hor(),
            final(self).li.old_y == final(self).li.y,
            final(self).li.old_x == old(self).li.old_x,
            final(self).di == old(self).li.di_after_hor(old(self).di),
            final(self).li.step == old(self).li.step + 1,
            final(self).li.dist == old(self).li.dist,
            final(self).li.lp == old(self).li.lp,
            final(self).li.len == old(self).li.len,
            final(self).li.count == old(self).li.count,
            final(self).li.width == old(self).li.width,
            final(self).li.max_extent == old(self).li.max_extent,
            final(self).li.tables_ok(),
            r == (final(self).li.step < final(self).li.count),
            ({
                let s1 = old(self).li.s1_hor(old(self).di);
                let w = old(self).li.width as int;
                let k1 = first_above(old(self).li.dist@, w + s1, 1);
                let k2 = first_above(old(self).li.dist@, w - s1, 1);
                &&& forall|t: int| -k2 < t < k1 ==> #[trigger] final(self).li.covers@[66 + t]
                        == spread_cover(old(ren), old(self).li.dist@, s1, t)
                &&& old(ren).span_drawn(final(ren), final(self).li.x, (final(self).li.y - k2 + 1) as i64,
                        (k1 + k2 - 1) as i64, final(self).li.covers@.subrange(67 - k2, 132), true)
            }),
    {
        // Step the Interpolator horizontally and get the width
        //   projected onto the vertical
        let ghost di_pre = self.di;
        let ghost li_pre = self.li;
        let s1: i64 = self.li.step_hor_base(&mut self.di);
        assert(self.di == li_pre.di_after_hor(di_pre));
        let ghost li0 = self.li;
        let ghost di0 = self.di;
        let mut p0: usize = MAX_HALF_WIDTH + 2;
        let mut p1: usize = p0;

        // Get the coverage at the center for value of s1
        let c: u64 = ren.cover(s1);
        self.li.covers.set(p1, c);

        p1 += 1;
        //Generate covers for "one" side of the line
        let mut dy: usize = 1;
        let mut dist: i64 = self.li.dist[dy] - s1;
        while dist <= self.li.width
            invariant
                1 <= dy <= 64,
                p1 == 66 + dy,
                p0 == 66,
                self.li.same_but_covers(&li0),
                self.di == di0,
                li0.tables_ok(),
                li0.spread_ends(s1 as int),
                dist == li0.dist@[dy as int] - s1,
                forall|k: int| 1 <= k < dy ==> #[trigger] li0.dist@[k] - s1 <= li0.width,
                *ren == *old(ren),
                covers_queryable(ren, li0.dist@, li0.width as int, s1 as int),
                forall|t: int| 0 <= t < dy ==> #[trigger] self.li.covers@[66 + t]
                    == spread_cover(ren, li0.dist@, s1 as int, t),
            decreases 64 - dy,
        {
            let c: u64 = ren.cover(dist);
            self.li.covers.set(p1, c);
            p1 += 1;
            dy += 1;
            assert(dy <= 64);
            dist = self.li.dist[dy] - s1;
        }
        proof { lemma_first_above(li0.dist@, li0.width + s1, 1, dy as int); }
        let ghost k1: int = dy as int;
        //Generate covers for the "other" side of the line
        let mut dy: usize = 1;
        dist = self.li.dist[dy] + s1;
        while dist <= self.li.width
            invariant
                1 <= dy <= 64,
                p0 == 67 - dy,
                p1 == 66 + k1,
                1 <= k1 <= 64,
                self.li.same_but_covers(&li0),
                self.di == di0,
                li0.tables_ok(),
                li0.spread_ends(s1 as int),
                dist == li0.dist@[dy as int] + s1,
                forall|k: int| 1 <= k < dy ==> #[trigger] li0.dist@[k] + s1 <= li0.width,
                *ren == *old(ren),
                covers_queryable(ren, li0.dist@, li0.width as int, s1 as int),
                forall|t: int| -dy < t < k1 ==> #[trigger] self.li.covers@[66 + t]
                    == spread_cover(ren, li0.dist@, s1 as int, t),
            decreases 64 - dy,
        {
            p0 -= 1;
            let c: u64 = ren.cover(dist);
            self.li.covers.set(p0, c);
            dy += 1;
            dist = self.li.dist[dy] + s1;
        }
        proof {
            lemma_first_above(li0.dist@, li0.width - s1, 1, dy as int);
            li_pre.lemma_step_position();
        }
        // Draw Line using coverages
        let covers = vstd::slice::slice_subrange(self.li.covers.as_slice(), p0, self.li.covers.len());
        ren.blend_solid_vspan(self.li.x,
                              self.li.y - dy as i64 + 1,
                              (p1 - p0) as i64,
                              covers);
        // Step the Line Interpolator AA
        self.li.step += 1;
        self.li.step < self.li.count
    }
}

impl AA0 {
    /// Conduct a vertical step, used for "vertical lines"
    ///
    /// Draws the row of coverages around the next pixel of the line and
    /// returns whether steps remain.
    pub fn step_ver<R: RenderOutline>(&mut self, ren: &mut R) -> (r: bool)
        requires
            old(self).li.ready(),
            old(self).di.step_ok(),
            old(self).li.spread_ends(old(self).li.s1_ver(old(self).di)),
            covers_queryable(old(ren), old(self).li.dist@, old(self).li.width as int,
                old(self).li.s1_ver(old(self).di)),
            spans_drawable(old(ren), false),
        ensures
            final(self).li.li.fields() == old(self).li.li.inc_spec(),
            final(self).li.y == old(self).li.y + old(self).li.lp.inc,
            final(self).li.x == old(self).li.x_after_ver(),
            final(self).li.old_x == final(self).li.x,
            final(self).li.old_y == old(self).li.old_y,
            final(self).di == old(self).li.di_after_ver(old(self).di),
            final(self).li.step == old(self).li.step + 1,
            final(self).li.dist == old(self).li.dist,
            final(self).li.lp == old(self).li.lp,
            final(self).li.len == old(self).li.len,
            final(self).li.count == old(self).li.count,
            final(self).li.width == old(self).li.width,
            final(self).li.max_extent == old(self).li.max_extent,
            final(self).li.tables_ok(),
            r == (final(self).li.step < final(self).li.count),
            ({
                let s1 = old(self).li.s1_ver(old(self).di);
                let w = old(self).li.width as int;
                let k1 = first_above(old(self).li.dist@, w + s1, 1);
                let k2 = first_above(old(self).li.dist@, w - s1, 1);
                &&& forall|t: int| -k2 < t < k1 ==> #[trigger] final(self).li.covers@[66 + t]
                        == spread_cover(old(ren), old(self).li.dist@, s1, t)
                &&& old(ren).span_drawn(final(ren), (final(self).li.x - k2 + 1) as i64, final(self).li.y,
                        (k1 + k2 - 1) as i64, final(self).li.covers@.subrange(67 - k2, 132), false)
            }),
    {
        let ghost di_pre = self.di;
        let ghost li_pre = self.li;
        let s1: i64 = self.li.step_ver_base(&mut self.di);
        assert(self.di == li_pre.di_after_ver(di_pre));
        let ghost li0 = self.li;
        let ghost di0 = self.di;
        let mut p0: usize = MAX_HALF_WIDTH + 2;
        let mut p1: usize = p0;
        let c: u64 = ren.cover(s1);
        self.li.covers.set(p1, c);
        p1 += 1;
        let mut dx: usize = 1;
        let mut dist: i64 = self.li.dist[dx] - s1;
        while dist <= self.li.width
            invariant
                1 <= dx <= 64,
                p1 == 66 + dx,
                p0 == 66,
                self.li.same_but_covers(&li0),
                self.di == di0,
                li0.tables_ok(),
                li0.spread_ends(s1 as int),
                dist == li0.dist@[dx as int] - s1,
                forall|k: int| 1 <= k < dx ==> #[trigger] li0.dist@[k] - s1 <= li0.width,
                *ren == *old(ren),
                covers_queryable(ren, li0.dist@, li0.width as int, s1 as int),
                forall|t: int| 0 <= t < dx ==> #[trigger] self.li.covers@[66 + t]
                    == spread_cover(ren, li0.dist@, s1 as int, t),
            decreases 64 - dx,
        {
            let c: u64 = ren.cover(dist);
            self.li.covers.set(p1, c);
            p1 += 1;
            dx += 1;
            dist = self.li.dist[dx] - s1;
        }
        proof { lemma_first_above(li0.dist@, li0.width + s1, 1, dx as int); }
        let ghost k1: int = dx as int;

        dx = 1;
        dist = self.li.dist[dx] + s1;
        while dist <= self.li.width
            invariant
                1 <= dx <= 64,
                p0 == 67 - dx,
                p1 == 66 + k1,
                1 <= k1 <= 64,
                self.li.same_but_covers(&li0),
                self.di == di0,
                li0.tables_ok(),
                li0.spread_ends(s1 as int),
                dist == li0.dist@[dx as int] + s1,
                forall|k: int| 1 <= k < dx ==> #[trigger] li0.dist@[k] + s1 <= li0.width,
                *ren == *old(ren),
                covers_queryable(ren, li0.dist@, li0.width as int, s1 as int),
                forall|t: int| -dx < t < k1 ==> #[trigger] self.li.covers@[66 + t]
                    == spread_cover(ren, li0.dist@, s1 as int, t),
            decreases 64 - dx,
        {
            p0 -= 1;
            let c: u64 = ren.cover(dist);
            self.li.covers.set(p0, c);
            dx += 1;
            dist = self.li.dist[dx] + s1;
        }
        proof {
            lemma_first_above(li0.dist@, li0.width - s1, 1, dx as int);
            li_pre.lemma_step_position();
        }
        let covers = vstd::slice::slice_subrange(self.li.covers.as_slice(), p0, self.li.covers.len());
        ren.blend_solid_hspan(self.li.x - dx as i64 + 1,
                              self.li.y,
                              (p1 - p0) as i64,
                              covers);
        self.li.step += 1;
        self.li.step < self.li.count
    }
}

} // verus!

verus! {

/// The pixel column (vertical lines) or row (horizontal lines) of the line
/// `j` steps back from its start
#[verifier::opaque]
pub open spec fn back_pos(lp: LineParameters, j: nat) -> int {
    let f = crate::render::dda_dec_n(LineInterpolatorAA::line_dda(lp), j);
    if lp.vertical { (lp.x1 + f.4) / 256 } else { (lp.y1 + f.4) / 256 }
}

/// The distance interpolator `j` steps back from the start of the line
pub open spec fn back_di<DI: DistanceInterpolator>(lp: LineParameters, di0: DI, j: nat) -> DI
    decreases j,
{
    if j == 0 {
        di0
    } else {
        let prev = back_di(lp, di0, (j - 1) as nat);
        let d = (back_pos(lp, j) - back_pos(lp, (j - 1) as nat)) as i64;
        if lp.vertical {
            if lp.inc > 0 { prev.dec_y_spec(d) } else { prev.inc_y_spec(d) }
        } else {
            if lp.inc > 0 { prev.dec_x_spec(d) } else { prev.inc_x_spec(d) }
        }
    }
}

/// The coverage that a spread around a line pixel at distance `s1` asks
/// for the pixel `t` places away from that pixel: `t > 0` on the side where
/// the table distance is reduced by `s1`, `t < 0` on the other
pub open spec fn spread_cover<R: RenderOutline>(ren: &R, dist: Seq<i64>, s1: int, t: int) -> u64 {
    if t == 0 {
        ren.cover_spec(s1 as i64)
    } else if t > 0 {
        ren.cover_spec((dist[t] - s1) as i64)
    } else {
        ren.cover_spec((dist[-t] + s1) as i64)
    }
}

/// The first index from `m` on whose distance exceeds `width` (the sentinel
/// at 64 ends the search)
pub open spec fn first_above(dist: Seq<i64>, width: int, m: int) -> int
    decreases 64 - m,
{
    if m >= 64 || dist[m] > width { m } else { first_above(dist, width, m + 1) }
}

/// Number of negative values among `ds + t * d` and `ds - t * d` for `t` in `1..=m`
pub open spec fn count_neg(ds: int, d: int, m: int) -> int
    decreases m,
{
    if m <= 0 {
        0
    } else {
        count_neg(ds, d, m - 1) + (if ds + m * d < 0 { 1int } else { 0 })
            + (if ds - m * d < 0 { 1int } else { 0 })
    }
}

/// Number of pixels of a spread of `m` pixels each side of a center at
/// distance `ds` from the start line, step `d`, that lie before the start
pub open spec fn pixels_before(ds: int, d: int, m: int) -> int {
    (if ds < 0 { 1int } else { 0 }) + count_neg(ds, d, m)
}

pub proof fn lemma_first_above(dist: Seq<i64>, width: int, m: int, k: int)
    requires
        1 <= m <= k <= 64,
        dist.len() == 65,
        dist[k] > width,
        forall|t: int| m <= t < k ==> #[trigger] dist[t] <= width,
    ensures
        first_above(dist, width, m) == k,
    decreases k - m,
{
    if m < k {
        lemma_first_above(dist, width, m + 1, k);
    }
}

pub proof fn lemma_count_neg_bound(ds: int, d: int, m: int)
    requires
        m >= 0,
    ensures
        0 <= count_neg(ds, d, m) <= 2 * m,
    decreases m,
{
    if m > 0 {
        lemma_count_neg_bound(ds, d, m - 1);
    }
}

} // verus!

verus! {

/// Magnitudes that keep every step of a start/end distance interpolator in range
pub open spec fn di2_small(d: DistanceInterpolator2) -> bool {
    &&& iabs(d.dist as int) <= 0x1000_0000_0000_0000
    &&& iabs(d.dx as int) <= 0x4_0000_0000
    &&& iabs(d.dy as int) <= 0x4_0000_0000
    &&& iabs(d.dist_start as int) <= 0x40_0000_0000_0000
    &&& iabs(d.dx_start as int) <= 0x1000_0000
    &&& iabs(d.dy_start as int) <= 0x1000_0000
}

/// One step moves each distance by at most one of its increments in x and y
pub proof fn lemma_di2_step(d: DistanceInterpolator2, v: i64)
    requires
        di2_small(d),
    ensures
        ({
            let a = d.inc_x_spec(v);
            let b = d.dec_x_spec(v);
            let c = d.inc_y_spec(v);
            let e = d.dec_y_spec(v);
            &&& a.dx == d.dx && a.dy == d.dy && a.dx_start == d.dx_start && a.dy_start == d.dy_start
            &&& b.dx == d.dx && b.dy == d.dy && b.dx_start == d.dx_start && b.dy_start == d.dy_start
            &&& c.dx == d.dx && c.dy == d.dy && c.dx_start == d.dx_start && c.dy_start == d.dy_start
            &&& e.dx == d.dx && e.dy == d.dy && e.dx_start == d.dx_start && e.dy_start == d.dy_start
            &&& iabs(a.dist - d.dist) <= iabs(d.dx as int) + iabs(d.dy as int)
            &&& iabs(b.dist - d.dist) <= iabs(d.dx as int) + iabs(d.dy as int)
            &&& iabs(c.dist - d.dist) <= iabs(d.dx as int) + iabs(d.dy as int)
            &&& iabs(e.dist - d.dist) <= iabs(d.dx as int) + iabs(d.dy as int)
            &&& iabs(a.dist_start - d.dist_start) <= iabs(d.dx_start as int) + iabs(d.dy_start as int)
            &&& iabs(b.dist_start - d.dist_start) <= iabs(d.dx_start as int) + iabs(d.dy_start as int)
            &&& iabs(c.dist_start - d.dist_start) <= iabs(d.dx_start as int) + iabs(d.dy_start as int)
            &&& iabs(e.dist_start - d.dist_start) <= iabs(d.dx_start as int) + iabs(d.dy_start as int)
        }),
{
}

/// Stepping back along a line moves the distances by at most one step each
#[verifier::rlimit(40)]
pub proof fn lemma_back_di2(lp: LineParameters, di0: DistanceInterpolator2, j: nat)
    requires
        iabs(di0.dist as int) <= 0x10_0000_0000_0000,
        iabs(di0.dist_start as int) <= 0x8_0000_0000_0000,
        iabs(di0.dx as int) <= 0x4_0000_0000,
        iabs(di0.dy as int) <= 0x4_0000_0000,
        iabs(di0.dx_start as int) <= 0x1000_0000,
        iabs(di0.dy_start as int) <= 0x1000_0000,
        j <= 0x100_0000,
    ensures
        back_di(lp, di0, j).dx == di0.dx,
        back_di(lp, di0, j).dy == di0.dy,
        back_di(lp, di0, j).dx_start == di0.dx_start,
        back_di(lp, di0, j).dy_start == di0.dy_start,
        iabs(back_di(lp, di0, j).dist - di0.dist) <= j * 0x8_0000_0000,
        iabs(back_di(lp, di0, j).dist_start - di0.dist_start) <= j * 0x2000_0000,
        di2_small(back_di(lp, di0, j)),
    decreases j,
{
    if j > 0 {
        lemma_back_di2(lp, di0, (j - 1) as nat);
        let prev = back_di(lp, di0, (j - 1) as nat);
        let v = (back_pos(lp, j) - back_pos(lp, (j - 1) as nat)) as i64;
        lemma_di2_step(prev, v);
        let cur = back_di(lp, di0, j);
        assert(cur == (if lp.vertical {
            if lp.inc > 0 { prev.dec_y_spec(v) } else { prev.inc_y_spec(v) }
        } else {
            if lp.inc > 0 { prev.dec_x_spec(v) } else { prev.inc_x_spec(v) }
        }));
        assert(((j - 1) as nat) * 0x8_0000_0000 + 0x8_0000_0000 == j * 0x8_0000_0000);
        assert(((j - 1) as nat) * 0x2000_0000 + 0x2000_0000 == j * 0x2000_0000);
    }
}

/// A start distance interpolator stays small from a line in range
pub proof fn lemma_di2_new_small(x1: i64, y1: i64, x2: i64, y2: i64,
                                 sx: i64, sy: i64, x: i64, y: i64, start: bool)
    requires
        in_coord(x1 as int), in_coord(y1 as int), in_coord(x2 as int), in_coord(y2 as int),
        in_coord(x as int), in_coord(y as int), in_aux(sx as int), in_aux(sy as int),
    ensures
        ({
            let d = DistanceInterpolator2::new_spec(x1, y1, x2, y2, sx, sy, x, y, start);
            &&& iabs(d.dist as int) <= 0x10_0000_0000_0000
            &&& iabs(d.dist_start as int) <= 0x8_0000_0000_0000
            &&& iabs(d.dx as int) <= 0x4_0000_0000
            &&& iabs(d.dy as int) <= 0x4_0000_0000
            &&& iabs(d.dx_start as int) <= 0x1000_0000
            &&& iabs(d.dy_start as int) <= 0x1000_0000
        }),
{
    let dxs = if start { mr(sx as int) - mr(x1 as int) } else { mr(sx as int) - mr(x2 as int) };
    let dys = if start { mr(sy as int) - mr(y1 as int) } else { mr(sy as int) - mr(y2 as int) };
    lemma_mr(sx as int); lemma_mr(sy as int); lemma_mr(x1 as int); lemma_mr(y1 as int);
    lemma_mr(x2 as int); lemma_mr(y2 as int); lemma_mr(x + 128); lemma_mr(y + 128);
    lemma_mul_bound(x + 128 - x2, y2 - y1, 0x200_0080, 0x200_0000);
    lemma_mul_bound(y + 128 - y2, x2 - x1, 0x200_0080, 0x200_0000);
    lemma_mul_bound(mr(x + 128) - mr(sx as int), dys, 0x80_0020, 0x80_0020);
    lemma_mul_bound(mr(y + 128) - mr(sy as int), dxs, 0x80_0020, 0x80_0020);
}

/// Interpolator for a line whose start is cut by a bisectrix
#[derive(Debug)]
pub struct AA1 {
    pub di: DistanceInterpolator2,
    pub li: LineInterpolatorAA,
}

/// The distance interpolator that `AA1::new` starts from
pub open spec fn aa1_di0(lp: LineParameters, sx: i64, sy: i64) -> DistanceInterpolator2 {
    DistanceInterpolator2::new_spec(lp.x1, lp.y1, lp.x2, lp.y2, sx, sy,
        ((lp.x1 / 256) * 256) as i64, ((lp.y1 / 256) * 256) as i64, true)
}

/// Number of pixels before the start line in the spread `j` steps back
/// (the first step always counts one more)
pub open spec fn back_npix(lp: LineParameters, di0: DistanceInterpolator2, m: int, j: nat) -> int {
    let d = back_di(lp, di0, j);
    let step = if lp.vertical { d.dy_start as int } else { -d.dx_start };
    (if j == 1 { 1int } else { 0 }) + pixels_before(d.dist_start as int, step, m)
}

/// The state `AA1::new` leaves after `k` steps back from the start of the line
pub open spec fn aa1_start(lp: LineParameters, sx: i64, sy: i64, subpixel_width: i64,
                           s: AA1, k: int) -> bool {
    let kn = k as nat;
    let di0 = aa1_di0(lp, sx, sy);
    let m = first_above(s.li.dist@, subpixel_width as int, 1);
    let f = crate::render::dda_dec_n(LineInterpolatorAA::line_dda(lp), kn);
    &&& 1 <= k <= s.li.max_extent + 1
    &&& s.di == back_di(lp, di0, kn)
    &&& s.li.li.fields() == (f.0, f.1, f.2, f.3 - f.0, f.4)
    &&& (lp.vertical ==> {
        &&& s.li.y == lp.y1 / 256 - k * lp.inc
        &&& s.li.x == back_pos(lp, kn)
        &&& s.li.old_x == s.li.x
        &&& s.li.old_y == lp.y1 / 256
    })
    &&& (!lp.vertical ==> {
        &&& s.li.x == lp.x1 / 256 - k * lp.inc
        &&& s.li.y == back_pos(lp, kn)
        &&& s.li.old_y == s.li.y
        &&& s.li.old_x == lp.x1 / 256
    })
    // steps back stop at the first one with no pixel before the
    // start, or after max_extent + 1 steps
    &&& forall|j: int| 1 <= j < k ==>
        #[trigger] back_npix(lp, di0, m, j as nat) != 0 && j <= s.li.max_extent
    &&& back_npix(lp, di0, m, kn) == 0 || k > s.li.max_extent
    &&& s.li.step == -k
}

impl AA1 {
    pub fn new(lp: LineParameters, sx: i64, sy: i64, subpixel_width: i64) -> (s: Self)
        requires
            lp.wf(),
            0 <= subpixel_width < WIDTH_LIMIT,
            in_aux(sx as int), in_aux(sy as int),
        ensures
            aa1_start(lp, sx, sy, subpixel_width, s, -s.li.step),
            s.li.lp == lp,
            s.li.setup(lp, subpixel_width),
    {
        let mut li = LineInterpolatorAA::new(lp, subpixel_width);
        proof {
            crate::fixed::lemma_mask8(lp.x1);
            crate::fixed::lemma_mask8(lp.y1);
            lemma_line_dda_bounds(lp);
            lemma_di2_new_small(lp.x1, lp.y1, lp.x2, lp.y2, sx, sy,
                ((lp.x1 / 256) * 256) as i64, ((lp.y1 / 256) * 256) as i64, true);
        }
        let mut di = DistanceInterpolator2::new(lp.x1, lp.y1, lp.x2, lp.y2, sx, sy,
                                                 lp.x1 & !POLY_SUBPIXEL_MASK,
                                                 lp.y1 & !POLY_SUBPIXEL_MASK,
                                                 true);
        let ghost di0 = di;
        let ghost li0 = li;
        let ghost f0 = li.li.fields();
        let ghost m = first_above(li.dist@, subpixel_width as int, 1);
        let ghost mut k: int = 0;
        let mut npix: i64 = 1;
        proof { reveal(back_pos); }
        if lp.vertical {
            loop
                invariant_except_break
                    k == -li.step,
                    0 <= k <= li.max_extent,
                    npix == (if k == 0 { 1int } else { 0 }),
                    li.li.fields() == crate::render::dda_dec_n(f0, k as nat),
                    li.x == back_pos(lp, k as nat),
                    li.old_x == li.x,
                    li.y == lp.y1 / 256 - k * lp.inc,
                    di == back_di(lp, di0, k as nat),
                    forall|j: int| 1 <= j <= k ==> #[trigger] back_npix(lp, di0, m, j as nat) != 0,
                invariant
                    li.lp == lp, li.len == li0.len, li.count == li0.count, li.width == li0.width,
                    li.max_extent == li0.max_extent, li.dist == li0.dist, li.covers == li0.covers,
                    li.old_y == li0.old_y,
                    li0.fresh(lp, subpixel_width),
                    di0 == aa1_di0(lp, sx, sy),
                    f0 == LineInterpolatorAA::line_dda(lp),
                    m == first_above(li0.dist@, subpixel_width as int, 1),
                    lp.wf(), lp.vertical, lp.inc == 1 || lp.inc == -1,
                    li0.max_extent <= 0x80_0001,
                    0 < f0.0 <= 0x200_0001, crate::fixed::iabs(f0.1) <= 257,
                    crate::fixed::iabs(f0.2) <= 0x400_0002, crate::fixed::iabs(f0.3) <= 0x400_0002,
                    f0.4 == 0,
                    iabs(di0.dist as int) <= 0x10_0000_0000_0000,
                    iabs(di0.dist_start as int) <= 0x8_0000_0000_0000,
                    iabs(di0.dx as int) <= 0x4_0000_0000,
                    iabs(di0.dy as int) <= 0x4_0000_0000,
                    iabs(di0.dx_start as int) <= 0x1000_0000,
                    iabs(di0.dy_start as int) <= 0x1000_0000,
                ensures
                    1 <= k <= li.max_extent + 1,
                    k == -li.step,
                    li.li.fields() == crate::render::dda_dec_n(f0, k as nat),
                    li.x == back_pos(lp, k as nat),
                    li.old_x == li.x,
                    li.y == lp.y1 / 256 - k * lp.inc,
                    di == back_di(lp, di0, k as nat),
                    forall|j: int| 1 <= j < k ==> #[trigger] back_npix(lp, di0, m, j as nat) != 0 && j <= li.max_extent,
                    back_npix(lp, di0, m, k as nat) == 0 || k > li.max_extent,
                decreases li.max_extent - k,
            {
                proof {
                    crate::render::lemma_dda_dec_n_bounds(f0, k as nat);
                    lemma_mul_bound(k, iabs(f0.1) + 1, 0x80_0000, 258);
                    lemma_mul_bound(k, iabs(f0.2) + iabs(f0.0), 0x80_0000, 0x600_0003);
                    lemma_back_di2(lp, di0, k as nat);
                }
                proof {
                    assert((k + 1) * lp.inc == k * lp.inc + lp.inc) by (nonlinear_arith);
                    lemma_mul_bound(k, lp.inc as int, 0x80_0001, 1);
                }
                li.li.dec();
                li.y -= lp.inc;
                proof {
                    crate::fixed::lemma_shr8((li.lp.x1 + li.li.y) as i64);
                    reveal(back_pos);
                }
                li.x = (li.lp.x1 + li.li.y) >> POLY_SUBPIXEL_SHIFT;

                if lp.inc > 0 {
                    di.dec_y(li.x - li.old_x);
                } else {
                    di.inc_y(li.x - li.old_x);
                }
                li.old_x = li.x;
                proof {
                    k = k + 1;
                    lemma_back_di2(lp, di0, k as nat);
                }

                let mut dist1_start: i64 = di.dist_start;
                let mut dist2_start: i64 = di.dist_start;
                let ghost ds: int = di.dist_start as int;
                let ghost npix0: int = npix as int;

                let mut dx: usize = 0;
                if dist1_start < 0 {
                    npix += 1;
                }
                loop
                    invariant_except_break
                        dx < 64,
                        forall|t: int| 1 <= t <= dx ==> #[trigger] li.dist@[t] <= li.width,
                    invariant
                        0 <= dx <= 64,
                        dist1_start == ds + dx * di.dy_start,
                        dist2_start == ds - dx * di.dy_start,
                        npix == npix0 + (if ds < 0 { 1int } else { 0 }) + count_neg(ds, di.dy_start as int, dx as int),
                        iabs(ds) <= 0x40_0000_0000_0000,
                        iabs(di.dy_start as int) <= 0x1000_0000,
                        0 <= npix0 <= 1,
                        li.dist == li0.dist, li.width == li0.width,
                        li0.tables_ok(),
                    ensures
                        1 <= dx <= 64,
                        li.dist@[dx as int] > li.width,
                        forall|t: int| 1 <= t < dx ==> #[trigger] li.dist@[t] <= li.width,
                        npix == npix0 + pixels_before(ds, di.dy_start as int, dx as int),
                    decreases 64 - dx,
                {
                    proof {
                        lemma_mul_bound(dx as int + 1, di.dy_start as int, 64, 0x1000_0000);
                        lemma_mul_bound(dx as int, di.dy_start as int, 64, 0x1000_0000);
                        lemma_count_neg_bound(ds, di.dy_start as int, dx as int);
                        assert((dx as int + 1) * di.dy_start == dx as int * di.dy_start + di.dy_start)
                            by (nonlinear_arith);
                    }
                    dist1_start += di.dy_start;
                    dist2_start -= di.dy_start;
                    if dist1_start < 0 {
                        npix += 1;
                    }
                    if dist2_start < 0 {
                        npix += 1;
                    }
                    dx += 1;
                    if li.dist[dx] > li.width {
                        break;
                    }
                }
                proof {
                    lemma_first_above(li.dist@, li.width as int, 1, dx as int);
                }
                li.step -= 1;
                if npix == 0 {
                    break;
                }
                npix = 0;
                if li.step < -li.max_extent {
                    break;
                }
            }
        } else {
            loop
                invariant_except_break
                    k == -li.step,
                    0 <= k <= li.max_extent,
                    npix == (if k == 0 { 1int } else { 0 }),
                    li.li.fields() == crate::render::dda_dec_n(f0, k as nat),
                    li.y == back_pos(lp, k as nat),
                    li.old_y == li.y,
                    li.x == lp.x1 / 256 - k * lp.inc,
                    di == back_di(lp, di0, k as nat),
                    forall|j: int| 1 <= j <= k ==> #[trigger] back_npix(lp, di0, m, j as nat) != 0,
                invariant
                    li.lp == lp, li.len == li0.len, li.count == li0.count, li.width == li0.width,
                    li.max_extent == li0.max_extent, li.dist == li0.dist, li.covers == li0.covers,
                    li.old_x == li0.old_x,
                    li0.fresh(lp, subpixel_width),
                    di0 == aa1_di0(lp, sx, sy),
                    f0 == LineInterpolatorAA::line_dda(lp),
                    m == first_above(li0.dist@, subpixel_width as int, 1),
                    lp.wf(), !lp.vertical, lp.inc == 1 || lp.inc == -1,
                    li0.max_extent <= 0x80_0001,
                    0 < f0.0 <= 0x200_0001, crate::fixed::iabs(f0.1) <= 257,
                    crate::fixed::iabs(f0.2) <= 0x400_0002, crate::fixed::iabs(f0.3) <= 0x400_0002,
                    f0.4 == 0,
                    iabs(di0.dist as int) <= 0x10_0000_0000_0000,
                    iabs(di0.dist_start as int) <= 0x8_0000_0000_0000,
                    iabs(di0.dx as int) <= 0x4_0000_0000,
                    iabs(di0.dy as int) <= 0x4_0000_0000,
                    iabs(di0.dx_start as int) <= 0x1000_0000,
                    iabs(di0.dy_start as int) <= 0x1000_0000,
                ensures
                    1 <= k <= li.max_extent + 1,
                    k == -li.step,
                    li.li.fields() == crate::render::dda_dec_n(f0, k as nat),
                    li.y == back_pos(lp, k as nat),
                    li.old_y == li.y,
                    li.x == lp.x1 / 256 - k * lp.inc,
                    di == back_di(lp, di0, k as nat),
                    forall|j: int| 1 <= j < k ==> #[trigger] back_npix(lp, di0, m, j as nat) != 0 && j <= li.max_extent,
                    back_npix(lp, di0, m, k as nat) == 0 || k > li.max_extent,
                decreases li.max_extent - k,
            {
                proof {
                    crate::render::lemma_dda_dec_n_bounds(f0, k as nat);
                    lemma_mul_bound(k, iabs(f0.1) + 1, 0x80_0000, 258);
                    lemma_mul_bound(k, iabs(f0.2) + iabs(f0.0), 0x80_0000, 0x600_0003);
                    lemma_back_di2(lp, di0, k as nat);
                }
                proof {
                    assert((k + 1) * lp.inc == k * lp.inc + lp.inc) by (nonlinear_arith);
                    lemma_mul_bound(k, lp.inc as int, 0x80_0001, 1);
                }
                li.li.dec();
                li.x -= lp.inc;
                proof {
                    crate::fixed::lemma_shr8((li.lp.y1 + li.li.y) as i64);
                    reveal(back_pos);
                }
                li.y = (li.lp.y1 + li.li.y) >> POLY_SUBPIXEL_SHIFT;
                if lp.inc > 0 {
                    di.dec_x(li.y - li.old_y);
                } else {
                    di.inc_x(li.y - li.old_y);
                }
                li.old_y = li.y;
                proof {
                    k = k + 1;
                    lemma_back_di2(lp, di0, k as nat);
                }

                let mut dist1_start: i64 = di.dist_start;
                let mut dist2_start: i64 = di.dist_start;
                let ghost ds: int = di.dist_start as int;
                let ghost npix0: int = npix as int;

                let mut dy: usize = 0;
                if dist1_start < 0 {
                    npix += 1;
                }
                loop
                    invariant_except_break
                        dy < 64,
                        forall|t: int| 1 <= t <= dy ==> #[trigger] li.dist@[t] <= li.width,
                    invariant
                        0 <= dy <= 64,
                        dist1_start == ds - dy * di.dx_start,
                        dist2_start == ds + dy * di.dx_start,
                        npix == npix0 + (if ds < 0 { 1int } else { 0 }) + count_neg(ds, -di.dx_start, dy as int),
                        iabs(ds) <= 0x40_0000_0000_0000,
                        iabs(di.dx_start as int) <= 0x1000_0000,
                        0 <= npix0 <= 1,
                        li.dist == li0.dist, li.width == li0.width,
                        li0.tables_ok(),
                    ensures
                        1 <= dy <= 64,
                        li.dist@[dy as int] > li.width,
                        forall|t: int| 1 <= t < dy ==> #[trigger] li.dist@[t] <= li.width,
                        npix == npix0 + pixels_before(ds, -di.dx_start, dy as int),
                    decreases 64 - dy,
                {
                    proof {
                        lemma_mul_bound(dy as int + 1, di.dx_start as int, 64, 0x1000_0000);
                        lemma_mul_bound(dy as int, di.dx_start as int, 64, 0x1000_0000);
                        lemma_count_neg_bound(ds, -di.dx_start, dy as int);
                        assert((dy as int + 1) * di.dx_start == dy as int * di.dx_start + di.dx_start)
                            by (nonlinear_arith);
                        assert((dy as int + 1) * (-di.dx_start) == -((dy as int + 1) * di.dx_start))
                            by (nonlinear_arith);
                    }
                    dist1_start -= di.dx_start;
                    dist2_start += di.dx_start;
                    if dist1_start < 0 {
                        npix += 1;
                    }
                    if dist2_start < 0 {
                        npix += 1;
                    }
                    dy += 1;
                    if li.dist[dy] > li.width {
                        break;
                    }
                }
                proof {
                    lemma_first_above(li.dist@, li.width as int, 1, dy as int);
                }
                li.step -= 1;
                if npix == 0 {
                    break;
                }
                npix = 0;
                if li.step < -li.max_extent {
                    break;
                }
            }
        }
        proof {
            crate::render::lemma_dda_dec_n_bounds(f0, k as nat);
            lemma_mul_bound(k, iabs(f0.2) + iabs(f0.0), 0x80_0002, 0x600_0003);
        }
        li.li.adjust_forward();
        AA1 { li, di }
    }
}

} // verus!

verus! {

/// Every step along one side of a spread keeps the start distance in range
pub open spec fn spread_fits(ds: int, dxs: int, dys: int) -> bool {
    iabs(ds) + 64 * iabs(dxs) + 64 * iabs(dys) <= i64::MAX
}

impl AA1 {
    pub fn vertical(&self) -> (r: bool)
        ensures
            r == self.li.lp.vertical,
    {
        self.li.lp.vertical
    }

    /// Conduct a horizontal step
    ///
    /// Draws the column of coverages around the next pixel; pixels before
    /// the start line get no coverage. Returns whether steps remain.
    pub fn step_hor<R: RenderOutline>(&mut self, ren: &mut R) -> (r: bool)
        requires
            old(self).li.ready(),
            old(self).di.step_ok(),
            old(self).li.spread_ends(old(self).li.s1_hor(old(self).di)),
            covers_queryable(old(ren), old(self).li.dist@, old(self).li.width as int,
                old(self).li.s1_hor(old(self).di)),
            spans_drawable(old(ren), true),
            ({
                let d = old(self).li.di_after_hor(old(self).di);
                spread_fits(d.dist_start as int, d.dx_start as int, d.dy_start as int)
            }),
        ensures
            final(self).li.li.fields() == old(self).li.li.inc_spec(),
            final(self).li.x == old(self).li.x + old(self).li.lp.inc,
            final(self).li.y == old(self).li.y_after_hor(),
            final(self).li.old_y == final(self).li.y,
            final(self).li.old_x == old(self).li.old_x,
            final(self).di == old(self).li.di_after_hor(old(self).di),
            final(self).li.step == old(self).li.step + 1,
            final(self).li.dist == old(self).li.dist,
            final(self).li.lp == old(self).li.lp,
            final(self).li.len == old(self).li.len,
            final(self).li.count == old(self).li.count,
            final(self).li.width == old(self).li.width,
            final(self).li.max_extent == old(self).li.max_extent,
            final(self).li.tables_ok(),
            r == (final(self).li.step < final(self).li.count),
            ({
                let s1 = old(self).li.s1_hor(old(self).di);
                let w = old(self).li.width as int;
                let ds = final(self).di.dist_start as int;
                let d = final(self).di.dx_start as int;
                let k1 = first_above(final(self).li.dist@, w + s1, 1);
                let k2 = first_above(final(self).li.dist@, w - s1, 1);
                &&& forall|t: int| -k2 < t < k1 ==> #[trigger] final(self).li.covers@[66 + t]
                        == (if ds - t * d <= 0 { spread_cover(old(ren), old(self).li.dist@, s1, t) } else { 0 })
                &&& old(ren).span_drawn(final(ren), final(self).li.x, (final(self).li.y - k2 + 1) as i64,
                        (k1 + k2 - 1) as i64, final(self).li.covers@.subrange(67 - k2, 132), true)
            }),
    {
        let ghost di_pre = self.di;
        let ghost li_pre = self.li;
        let s1: i64 = self.li.step_hor_base(&mut self.di);
        assert(self.di == li_pre.di_after_hor(di_pre));
        let ghost li0 = self.li;
        let ghost di0 = self.di;
        let ghost ds: int = self.di.dist_start as int;
        let ghost d: int = self.di.dx_start as int;

        let mut dist_start: i64 = self.di.dist_start;
        let mut p0: usize = MAX_HALF_WIDTH + 2;
        let mut p1: usize = p0;
        self.li.covers.set(p1, 0);
        if dist_start <= 0 {
            let c: u64 = ren.cover(s1);
            self.li.covers.set(p1, c);
        }
        p1 += 1;
        let mut dy: usize = 1;
        let mut dist: i64 = self.li.dist[dy] - s1;
        assert(0 * d == 0);
        while dist <= self.li.width
            invariant
                1 <= dy <= 64,
                p1 == 66 + dy,
                p0 == 66,
                self.li.same_but_covers(&li0),
                self.di == di0,
                li0.tables_ok(),
                li0.spread_ends(s1 as int),
                spread_fits(ds, d, di0.dy_start as int),
                ds == di0.dist_start, d == di0.dx_start,
                dist == li0.dist@[dy as int] - s1,
                dist_start == ds - (dy - 1) * d,
                forall|k: int| 1 <= k < dy ==> #[trigger] li0.dist@[k] - s1 <= li0.width,
                *ren == *old(ren),
                covers_queryable(ren, li0.dist@, li0.width as int, s1 as int),
                forall|t: int| 0 <= t < dy ==> #[trigger] self.li.covers@[66 + t]
                    == (if ds - t * d <= 0 { spread_cover(ren, li0.dist@, s1 as int, t) } else { 0 }),
            decreases 64 - dy,
        {
            proof {
                lemma_mul_bound(dy as int, d, 64, iabs(d));
                assert(ds - dy * d == ds - (dy - 1) * d - d) by (nonlinear_arith);
            }
            dist_start -= self.di.dx_start;
            self.li.covers.set(p1, 0);
            if dist_start <= 0 {
                let c: u64 = ren.cover(dist);
                self.li.covers.set(p1, c);
            }
            p1 += 1;
            dy += 1;
            dist = self.li.dist[dy] - s1;
        }
        proof { lemma_first_above(li0.dist@, li0.width + s1, 1, dy as int); }
        let ghost k1: int = dy as int;

        dy = 1;
        dist_start = self.di.dist_start;
        dist = self.li.dist[dy] + s1;
        while dist <= self.li.width
            invariant
                1 <= dy <= 64,
                p0 == 67 - dy,
                p1 == 66 + k1,
                self.li.same_but_covers(&li0),
                self.di == di0,
                li0.tables_ok(),
                li0.spread_ends(s1 as int),
                spread_fits(ds, d, di0.dy_start as int),
                ds == di0.dist_start, d == di0.dx_start,
                dist == li0.dist@[dy as int] + s1,
                dist_start == ds + (dy - 1) * d,
                forall|k: int| 1 <= k < dy ==> #[trigger] li0.dist@[k] + s1 <= li0.width,
                *ren == *old(ren),
                covers_queryable(ren, li0.dist@, li0.width as int, s1 as int),
                forall|t: int| -dy < t < k1 ==> #[trigger] self.li.covers@[66 + t]
                    == (if ds - t * d <= 0 { spread_cover(ren, li0.dist@, s1 as int, t) } else { 0 }),
                1 <= k1 <= 64,
            decreases 64 - dy,
        {
            proof {
                lemma_mul_bound(dy as int, d, 64, iabs(d));
                assert(ds + dy * d == ds + (dy - 1) * d + d) by (nonlinear_arith);
                assert(ds - (-(dy as int)) * d == ds + dy * d) by (nonlinear_arith);
            }
            dist_start += self.di.dx_start;
            p0 -= 1;
            self.li.covers.set(p0, 0);
            if dist_start <= 0 {
                let c: u64 = ren.cover(dist);
                self.li.covers.set(p0, c);
            }
            dy += 1;
            dist = self.li.dist[dy] + s1;
        }
        proof {
            lemma_first_above(li0.dist@, li0.width - s1, 1, dy as int);
            li_pre.lemma_step_position();
        }
        let covers = vstd::slice::slice_subrange(self.li.covers.as_slice(), p0, self.li.covers.len());
        ren.blend_solid_vspan(self.li.x,
                              self.li.y - dy as i64 + 1,
                              (p1 - p0) as i64,
                              covers);
        self.li.step += 1;
        self.li.step < self.li.count
    }
}

impl AA1 {
    /// Conduct a vertical step
    ///
    /// Draws the row of coverages around the next pixel; pixels before
    /// the start line get no coverage. Returns whether steps remain.
    pub fn step_ver<R: RenderOutline>(&mut self, ren: &mut R) -> (r: bool)
        requires
            old(self).li.ready(),
            old(self).di.step_ok(),
            old(self).li.spread_ends(old(self).li.s1_ver(old(self).di)),
            covers_queryable(old(ren), old(self).li.dist@, old(self).li.width as int,
                old(self).li.s1_ver(old(self).di)),
            spans_drawable(old(ren), false),
            ({
                let d = old(self).li.di_after_ver(old(self).di);
                spread_fits(d.dist_start as int, d.dx_start as int, d.dy_start as int)
            }),
        ensures
            final(self).li.li.fields() == old(self).li.li.inc_spec(),
            final(self).li.y == old(self).li.y + old(self).li.lp.inc,
            final(self).li.x == old(self).li.x_after_ver(),
            final(self).li.old_x == final(self).li.x,
            final(self).li.old_y == old(self).li.old_y,
            final(self).di == old(self).li.di_after_ver(old(self).di),
            final(self).li.step == old(self).li.step + 1,
            final(self).li.dist == old(self).li.dist,
            final(self).li.lp == old(self).li.lp,
            final(self).li.len == old(self).li.len,
            final(self).li.count == old(self).li.count,
            final(self).li.width == old(self).li.width,
            final(self).li.max_extent == old(self).li.max_extent,
            final(self).li.tables_ok(),
            r == (final(self).li.step < final(self).li.count),
            ({
                let s1 = old(self).li.s1_ver(old(self).di);
                let w = old(self).li.width as int;
                let ds = final(self).di.dist_start as int;
                let d = final(self).di.dy_start as int;
                let k1 = first_above(final(self).li.dist@, w + s1, 1);
                let k2 = first_above(final(self).li.dist@, w - s1, 1);
                &&& forall|t: int| -k2 < t < k1 ==> #[trigger] final(self).li.covers@[66 + t]
                        == (if ds + t * d <= 0 { spread_cover(old(ren), old(self).li.dist@, s1, t) } else { 0 })
                &&& old(ren).span_drawn(final(ren), (final(self).li.x - k2 + 1) as i64, final(self).li.y,
                        (k1 + k2 - 1) as i64, final(self).li.covers@.subrange(67 - k2, 132), false)
            }),
    {
        let ghost di_pre = self.di;
        let ghost li_pre = self.li;
        let s1: i64 = self.li.step_ver_base(&mut self.di);
        assert(self.di == li_pre.di_after_ver(di_pre));
        let ghost li0 = self.li;
        let ghost di0 = self.di;
        let ghost ds: int = self.di.dist_start as int;
        let ghost d: int = self.di.dy_start as int;

        let mut dist_start: i64 = self.di.dist_start;
        let mut p0: usize = MAX_HALF_WIDTH + 2;
        let mut p1: usize = p0;
        self.li.covers.set(p1, 0);
        if dist_start <= 0 {
            let c: u64 = ren.cover(s1);
            self.li.covers.set(p1, c);
        }
        p1 += 1;
        let mut dx: usize = 1;
        let mut dist: i64 = self.li.dist[dx] - s1;
        assert(0 * d == 0);
        while dist <= self.li.width
            invariant
                1 <= dx <= 64,
                p1 == 66 + dx,
                p0 == 66,
                self.li.same_but_covers(&li0),
                self.di == di0,
                li0.tables_ok(),
                li0.spread_ends(s1 as int),
                spread_fits(ds, di0.dx_start as int, d),
                ds == di0.dist_start, d == di0.dy_start,
                dist == li0.dist@[dx as int] - s1,
                dist_start == ds + (dx - 1) * d,
                forall|k: int| 1 <= k < dx ==> #[trigger] li0.dist@[k] - s1 <= li0.width,
                *ren == *old(ren),
                covers_queryable(ren, li0.dist@, li0.width as int, s1 as int),
                forall|t: int| 0 <= t < dx ==> #[trigger] self.li.covers@[66 + t]
                    == (if ds + t * d <= 0 { spread_cover(ren, li0.dist@, s1 as int, t) } else { 0 }),
            decreases 64 - dx,
        {
            proof {
                lemma_mul_bound(dx as int, d, 64, iabs(d));
                assert(ds + dx * d == ds + (dx - 1) * d + d) by (nonlinear_arith);
            }
            dist_start += self.di.dy_start;
            self.li.covers.set(p1, 0);
            if dist_start <= 0 {
                let c: u64 = ren.cover(dist);
                self.li.covers.set(p1, c);
            }
            p1 += 1;
            dx += 1;
            dist = self.li.dist[dx] - s1;
        }
        proof { lemma_first_above(li0.dist@, li0.width + s1, 1, dx as int); }
        let ghost k1: int = dx as int;

        dx = 1;
        dist_start = self.di.dist_start;
        dist = self.li.dist[dx] + s1;
        while dist <= self.li.width
            invariant
                1 <= dx <= 64,
                p0 == 67 - dx,
                p1 == 66 + k1,
                self.li.same_but_covers(&li0),
                self.di == di0,
                li0.tables_ok(),
                li0.spread_ends(s1 as int),
                spread_fits(ds, di0.dx_start as int, d),
                ds == di0.dist_start, d == di0.dy_start,
                dist == li0.dist@[dx as int] + s1,
                dist_start == ds - (dx - 1) * d,
                forall|k: int| 1 <= k < dx ==> #[trigger] li0.dist@[k] + s1 <= li0.width,
                *ren == *old(ren),
                covers_queryable(ren, li0.dist@, li0.width as int, s1 as int),
                forall|t: int| -dx < t < k1 ==> #[trigger] self.li.covers@[66 + t]
                    == (if ds + t * d <= 0 { spread_cover(ren, li0.dist@, s1 as int, t) } else { 0 }),
                1 <= k1 <= 64,
            decreases 64 - dx,
        {
            proof {
                lemma_mul_bound(dx as int, d, 64, iabs(d));
                assert(ds - dx * d == ds - (dx - 1) * d - d) by (nonlinear_arith);
                assert(ds + (-(dx as int)) * d == ds - dx * d) by (nonlinear_arith);
            }
            dist_start -= self.di.dy_start;
            p0 -= 1;
            self.li.covers.set(p0, 0);
            if dist_start <= 0 {
                let c: u64 = ren.cover(dist);
                self.li.covers.set(p0, c);
            }
            dx += 1;
            dist = self.li.dist[dx] + s1;
        }
        proof {
            lemma_first_above(li0.dist@, li0.width - s1, 1, dx as int);
            li_pre.lemma_step_position();
        }
        let covers = vstd::slice::slice_subrange(self.li.covers.as_slice(), p0, self.li.covers.len());
        ren.blend_solid_hspan(self.li.x - dx as i64 + 1,
                              self.li.y,
                              (p1 - p0) as i64,
                              covers);
        self.li.step += 1;
        self.li.step < self.li.count
    }
}

} // verus!

verus! {

/// Number of positive values among `ds + t * d` for `t` in `1..=m`
pub open spec fn count_above(ds: int, d: int, m: int) -> int
    decreases m,
{
    if m <= 0 { 0 } else { count_above(ds, d, m - 1) + (if ds + m * d > 0 { 1int } else { 0 }) }
}

pub proof fn lemma_count_above_bound(ds: int, d: int, m: int)
    requires
        m >= 0,
    ensures
        0 <= count_above(ds, d, m) <= m,
    decreases m,
{
    if m > 0 {
        lemma_count_above_bound(ds, d, m - 1);
    }
}

/// Interpolator for a line whose end is cut by a bisectrix
#[derive(Debug)]
pub struct AA2 {
    pub di: DistanceInterpolator2,
    pub li: LineInterpolatorAA,
}

impl AA2 {
    pub fn new(lp: LineParameters, ex: i64, ey: i64, subpixel_width: i64) -> (s: Self)
        requires
            lp.wf(),
            0 <= subpixel_width < WIDTH_LIMIT,
            in_aux(ex as int), in_aux(ey as int),
        ensures
            s.li.setup(lp, subpixel_width),
            s.li.x == lp.x1 / 256,
            s.li.y == lp.y1 / 256,
            s.li.old_x == s.li.x,
            s.li.old_y == s.li.y,
            s.li.step == -s.li.max_extent,
            ({
                let f = LineInterpolatorAA::line_dda(lp);
                s.li.li.fields() == (f.0, f.1, f.2, f.3 - f.0, f.4)
            }),
            s.di == DistanceInterpolator2::new_spec(lp.x1, lp.y1, lp.x2, lp.y2, ex, ey,
                ((lp.x1 / 256) * 256) as i64, ((lp.y1 / 256) * 256) as i64, false),
    {
        let mut li = LineInterpolatorAA::new(lp, subpixel_width);
        proof {
            crate::fixed::lemma_mask8(lp.x1);
            crate::fixed::lemma_mask8(lp.y1);
            lemma_line_dda_bounds(lp);
        }
        let di = DistanceInterpolator2::new(lp.x1, lp.y1, lp.x2, lp.y2, ex, ey,
                                            lp.x1 & !POLY_SUBPIXEL_MASK,
                                            lp.y1 & !POLY_SUBPIXEL_MASK,
                                            false);
        li.li.adjust_forward();
        li.step -= li.max_extent;
        AA2 { li, di }
    }

    pub fn vertical(&self) -> (r: bool)
        ensures
            r == self.li.lp.vertical,
    {
        self.li.lp.vertical
    }

    /// Conduct a horizontal step
    ///
    /// Draws the column of coverages around the next pixel; pixels past the
    /// end line get no coverage. Returns whether any pixel was inside and
    /// steps remain.
    pub fn step_hor<R: RenderOutline>(&mut self, ren: &mut R) -> (r: bool)
        requires
            old(self).li.ready(),
            old(self).di.step_ok(),
            old(self).li.spread_ends(old(self).li.s1_hor(old(self).di)),
            covers_queryable(old(ren), old(self).li.dist@, old(self).li.width as int,
                old(self).li.s1_hor(old(self).di)),
            spans_drawable(old(ren), true),
            ({
                let d = old(self).li.di_after_hor(old(self).di);
                spread_fits(d.dist_start as int, d.dx_start as int, d.dy_start as int)
            }),
        ensures
            final(self).li.li.fields() == old(self).li.li.inc_spec(),
            final(self).li.x == old(self).li.x + old(self).li.lp.inc,
            final(self).li.y == old(self).li.y_after_hor(),
            final(self).li.old_y == final(self).li.y,
            final(self).li.old_x == old(self).li.old_x,
            final(self).di == old(self).li.di_after_hor(old(self).di),
            final(self).li.step == old(self).li.step + 1,
            final(self).li.dist == old(self).li.dist,
            final(self).li.lp == old(self).li.lp,
            final(self).li.len == old(self).li.len,
            final(self).li.count == old(self).li.count,
            final(self).li.width == old(self).li.width,
            final(self).li.max_extent == old(self).li.max_extent,
            final(self).li.tables_ok(),
            ({
                let s1 = old(self).li.s1_hor(old(self).di);
                let w = old(self).li.width as int;
                let de = final(self).di.dist_start as int;
                let d = final(self).di.dx_start as int;
                let k1 = first_above(final(self).li.dist@, w + s1, 1);
                let k2 = first_above(final(self).li.dist@, w - s1, 1);
                let npix = (if de > 0 { 1int } else { 0 }) + count_above(de, -d, k1 - 1)
                    + count_above(de, d, k2 - 1);
                &&& forall|t: int| -k2 < t < k1 ==> #[trigger] final(self).li.covers@[66 + t]
                        == (if de - t * d > 0 { spread_cover(old(ren), old(self).li.dist@, s1, t) } else { 0 })
                &&& old(ren).span_drawn(final(ren), final(self).li.x, (final(self).li.y - k2 + 1) as i64,
                        (k1 + k2 - 1) as i64, final(self).li.covers@.subrange(67 - k2, 132), true)
                &&& r == (npix != 0 && final(self).li.step < final(self).li.count)
            }),
    {
        let ghost di_pre = self.di;
        let ghost li_pre = self.li;
        let s1: i64 = self.li.step_hor_base(&mut self.di);
        assert(self.di == li_pre.di_after_hor(di_pre));
        let ghost li0 = self.li;
        let ghost di0 = self.di;
        let ghost de: int = self.di.dist_start as int;
        let ghost d: int = self.di.dx_start as int;
        let mut p0: usize = MAX_HALF_WIDTH + 2;
        let mut p1: usize = p0;

        let mut dist_end: i64 = self.di.dist_start;

        let mut npix: i64 = 0;
        self.li.covers.set(p1, 0);
        if dist_end > 0 {
            let c: u64 = ren.cover(s1);
            self.li.covers.set(p1, c);
            npix += 1;
        }
        p1 += 1;

        let mut dy: usize = 1;
        let mut dist: i64 = self.li.dist[dy] - s1;
        assert(0 * d == 0);
        while dist <= self.li.width
            invariant
                1 <= dy <= 64,
                p1 == 66 + dy,
                p0 == 66,
                self.li.same_but_covers(&li0),
                self.di == di0,
                li0.tables_ok(),
                li0.spread_ends(s1 as int),
                spread_fits(de, d, di0.dy_start as int),
                de == di0.dist_start, d == di0.dx_start,
                dist == li0.dist@[dy as int] - s1,
                dist_end == de - (dy - 1) * d,
                npix == (if de > 0 { 1int } else { 0 }) + count_above(de, -d, dy - 1),
                forall|k: int| 1 <= k < dy ==> #[trigger] li0.dist@[k] - s1 <= li0.width,
                *ren == *old(ren),
                covers_queryable(ren, li0.dist@, li0.width as int, s1 as int),
                forall|t: int| 0 <= t < dy ==> #[trigger] self.li.covers@[66 + t]
                    == (if de - t * d > 0 { spread_cover(ren, li0.dist@, s1 as int, t) } else { 0 }),
            decreases 64 - dy,
        {
            proof {
                lemma_mul_bound(dy as int, d, 64, iabs(d));
                assert(de - dy * d == de - (dy - 1) * d - d) by (nonlinear_arith);
                assert(dy * (-d) == -(dy * d)) by (nonlinear_arith);
                lemma_count_above_bound(de, -d, dy - 1);
            }
            dist_end -= self.di.dx_start;
            self.li.covers.set(p1, 0);
            if dist_end > 0 {
                let c: u64 = ren.cover(dist);
                self.li.covers.set(p1, c);
                npix += 1;
            }
            p1 += 1;
            dy += 1;
            dist = self.li.dist[dy] - s1;
        }
        proof {
            lemma_first_above(li0.dist@, li0.width + s1, 1, dy as int);
            lemma_count_above_bound(de, -d, dy - 1);
        }
        let ghost k1: int = dy as int;
        let ghost npix1: int = npix as int;

        dy = 1;
        dist_end = self.di.dist_start;
        dist = self.li.dist[dy] + s1;
        while dist <= self.li.width
            invariant
                1 <= dy <= 64,
                p0 == 67 - dy,
                p1 == 66 + k1,
                self.li.same_but_covers(&li0),
                self.di == di0,
                li0.tables_ok(),
                li0.spread_ends(s1 as int),
                spread_fits(de, d, di0.dy_start as int),
                de == di0.dist_start, d == di0.dx_start,
                dist == li0.dist@[dy as int] + s1,
                dist_end == de + (dy - 1) * d,
                0 <= npix1 <= 64,
                npix == npix1 + count_above(de, d, dy - 1),
                forall|k: int| 1 <= k < dy ==> #[trigger] li0.dist@[k] + s1 <= li0.width,
                *ren == *old(ren),
                covers_queryable(ren, li0.dist@, li0.width as int, s1 as int),
                forall|t: int| -dy < t < k1 ==> #[trigger] self.li.covers@[66 + t]
                    == (if de - t * d > 0 { spread_cover(ren, li0.dist@, s1 as int, t) } else { 0 }),
                1 <= k1 <= 64,
            decreases 64 - dy,
        {
            proof {
                lemma_mul_bound(dy as int, d, 64, iabs(d));
                assert(de + dy * d == de + (dy - 1) * d + d) by (nonlinear_arith);
                assert(de - (-(dy as int)) * d == de + dy * d) by (nonlinear_arith);
                lemma_count_above_bound(de, d, dy - 1);
            }
            dist_end += self.di.dx_start;
            p0 -= 1;
            self.li.covers.set(p0, 0);
            if dist_end > 0 {
                let c: u64 = ren.cover(dist);
                self.li.covers.set(p0, c);
                npix += 1;
            }
            dy += 1;
            dist = self.li.dist[dy] + s1;
        }
        proof {
            lemma_first_above(li0.dist@, li0.width - s1, 1, dy as int);
            li_pre.lemma_step_position();
        }
        let covers = vstd::slice::slice_subrange(self.li.covers.as_slice(), p0, self.li.covers.len());
        ren.blend_solid_vspan(self.li.x,
                              self.li.y - dy as i64 + 1,
                              (p1 - p0) as i64,
                              covers);
        self.li.step += 1;
        npix != 0 && self.li.step < self.li.count
    }

    /// Conduct a vertical step
    ///
    /// Draws the row of coverages around the next pixel; pixels past the
    /// end line get no coverage. Returns whether any pixel was inside and
    /// steps remain.
    pub fn step_ver<R: RenderOutline>(&mut self, ren: &mut R) -> (r: bool)
        requires
            old(self).li.ready(),
            old(self).di.step_ok(),
            old(self).li.spread_ends(old(self).li.s1_ver(old(self).di)),
            covers_queryable(old(ren), old(self).li.dist@, old(self).li.width as int,
                old(self).li.s1_ver(old(self).di)),
            spans_drawable(old(ren), false),
            ({
                let d = old(self).li.di_after_ver(old(self).di);
                spread_fits(d.dist_start as int, d.dx_start as int, d.dy_start as int)
            }),
        ensures
            final(self).li.li.fields() == old(self).li.li.inc_spec(),
            final(self).li.y == old(self).li.y + old(self).li.lp.inc,
            final(self).li.x == old(self).li.x_after_ver(),
            final(self).li.old_x == final(self).li.x,
            final(self).li.old_y == old(self).li.old_y,
            final(self).di == old(self).li.di_after_ver(old(self).di),
            final(self).li.step == old(self).li.step + 1,
            final(self).li.dist == old(self).li.dist,
            final(self).li.lp == old(self).li.lp,
            final(self).li.len == old(self).li.len,
            final(self).li.count == old(self).li.count,
            final(self).li.width == old(self).li.width,
            final(self).li.max_extent == old(self).li.max_extent,
            final(self).li.tables_ok(),
            ({
                let s1 = old(self).li.s1_ver(old(self).di);
                let w = old(self).li.width as int;
                let de = final(self).di.dist_start as int;
                let d = final(self).di.dy_start as int;
                let k1 = first_above(final(self).li.dist@, w + s1, 1);
                let k2 = first_above(final(self).li.dist@, w - s1, 1);
                let npix = (if de > 0 { 1int } else { 0 }) + count_above(de, d, k1 - 1)
                    + count_above(de, -d, k2 - 1);
                &&& forall|t: int| -k2 < t < k1 ==> #[trigger] final(self).li.covers@[66 + t]
                        == (if de + t * d > 0 { spread_cover(old(ren), old(self).li.dist@, s1, t) } else { 0 })
                &&& old(ren).span_drawn(final(ren), (final(self).li.x - k2 + 1) as i64, final(self).li.y,
                        (k1 + k2 - 1) as i64, final(self).li.covers@.subrange(67 - k2, 132), false)
                &&& r == (npix != 0 && final(self).li.step < final(self).li.count)
            }),
    {
        let ghost di_pre = self.di;
        let ghost li_pre = self.li;
        let s1: i64 = self.li.step_ver_base(&mut self.di);
        assert(self.di == li_pre.di_after_ver(di_pre));
        let ghost li0 = self.li;
        let ghost di0 = self.di;
        let ghost de: int = self.di.dist_start as int;
        let ghost d: int = self.di.dy_start as int;
        let mut p0: usize = MAX_HALF_WIDTH + 2;
        let mut p1: usize = p0;

        let mut dist_end: i64 = self.di.dist_start;

        let mut npix: i64 = 0;
        self.li.covers.set(p1, 0);
        if dist_end > 0 {
            let c: u64 = ren.cover(s1);
            self.li.covers.set(p1, c);
            npix += 1;
        }
        p1 += 1;

        let mut dx: usize = 1;
        let mut dist: i64 = self.li.dist[dx] - s1;
        assert(0 * d == 0);
        while dist <= self.li.width
            invariant
                1 <= dx <= 64,
                p1 == 66 + dx,
                p0 == 66,
                self.li.same_but_covers(&li0),
                self.di == di0,
                li0.tables_ok(),
                li0.spread_ends(s1 as int),
                spread_fits(de, di0.dx_start as int, d),
                de == di0.dist_start, d == di0.dy_start,
                dist == li0.dist@[dx as int] - s1,
                dist_end == de + (dx - 1) * d,
                npix == (if de > 0 { 1int } else { 0 }) + count_above(de, d, dx - 1),
                forall|k: int| 1 <= k < dx ==> #[trigger] li0.dist@[k] - s1 <= li0.width,
                *ren == *old(ren),
                covers_queryable(ren, li0.dist@, li0.width as int, s1 as int),
                forall|t: int| 0 <= t < dx ==> #[trigger] self.li.covers@[66 + t]
                    == (if de + t * d > 0 { spread_cover(ren, li0.dist@, s1 as int, t) } else { 0 }),
            decreases 64 - dx,
        {
            proof {
                lemma_mul_bound(dx as int, d, 64, iabs(d));
                assert(de + dx * d == de + (dx - 1) * d + d) by (nonlinear_arith);
                lemma_count_above_bound(de, d, dx - 1);
            }
            dist_end += self.di.dy_start;
            self.li.covers.set(p1, 0);
            if dist_end > 0 {
                let c: u64 = ren.cover(dist);
                self.li.covers.set(p1, c);
                npix += 1;
            }
            p1 += 1;
            dx += 1;
            dist = self.li.dist[dx] - s1;
        }
        proof {
            lemma_first_above(li0.dist@, li0.width + s1, 1, dx as int);
            lemma_count_above_bound(de, d, dx - 1);
        }
        let ghost k1: int = dx as int;
        let ghost npix1: int = npix as int;

        dx = 1;
        dist_end = self.di.dist_start;
        dist = self.li.dist[dx] + s1;
        while dist <= self.li.width
            invariant
                1 <= dx <= 64,
                p0 == 67 - dx,
                p1 == 66 + k1,
                self.li.same_but_covers(&li0),
                self.di == di0,
                li0.tables_ok(),
                li0.spread_ends(s1 as int),
                spread_fits(de, di0.dx_start as int, d),
                de == di0.dist_start, d == di0.dy_start,
                dist == li0.dist@[dx as int] + s1,
                dist_end == de - (dx - 1) * d,
                0 <= npix1 <= 64,
                npix == npix1 + count_above(de, -d, dx - 1),
                forall|k: int| 1 <= k < dx ==> #[trigger] li0.dist@[k] + s1 <= li0.width,
                *ren == *old(ren),
                covers_queryable(ren, li0.dist@, li0.width as int, s1 as int),
                forall|t: int| -dx < t < k1 ==> #[trigger] self.li.covers@[66 + t]
                    == (if de + t * d > 0 { spread_cover(ren, li0.dist@, s1 as int, t) } else { 0 }),
                1 <= k1 <= 64,
            decreases 64 - dx,
        {
            proof {
                lemma_mul_bound(dx as int, d, 64, iabs(d));
                assert(de - dx * d == de - (dx - 1) * d - d) by (nonlinear_arith);
                assert(de + (-(dx as int)) * d == de - dx * d) by (nonlinear_arith);
                assert(dx * (-d) == -(dx * d)) by (nonlinear_arith);
                lemma_count_above_bound(de, -d, dx - 1);
            }
            dist_end -= self.di.dy_start;
            p0 -= 1;
            self.li.covers.set(p0, 0);
            if dist_end > 0 {
                let c: u64 = ren.cover(dist);
                self.li.covers.set(p0, c);
                npix += 1;
            }
            dx += 1;
            dist = self.li.dist[dx] + s1;
        }
        proof {
            lemma_first_above(li0.dist@, li0.width - s1, 1, dx as int);
            li_pre.lemma_step_position();
        }
        let covers = vstd::slice::slice_subrange(self.li.covers.as_slice(), p0, self.li.covers.len());
        ren.blend_solid_hspan(self.li.x - dx as i64 + 1,
                              self.li.y,
                              (p1 - p0) as i64,
                              covers);
        self.li.step += 1;
        npix != 0 && self.li.step < self.li.count
    }
}

} // verus!

verus! {

/// Magnitudes that keep every step of a start and end distance interpolator in range
pub open spec fn di3_small(d: DistanceInterpolator3) -> bool {
    &&& iabs(d.dist as int) <= 0x1000_0000_0000_0000
    &&& iabs(d.dx as int) <= 0x4_0000_0000
    &&& iabs(d.dy as int) <= 0x4_0000_0000
    &&& iabs(d.dist_start as int) <= 0x40_0000_0000_0000
    &&& iabs(d.dx_start as int) <= 0x1000_0000
    &&& iabs(d.dy_start as int) <= 0x1000_0000
    &&& iabs(d.dist_end as int) <= 0x40_0000_0000_0000
    &&& iabs(d.dx_end as int) <= 0x1000_0000
    &&& iabs(d.dy_end as int) <= 0x1000_0000
}

/// One step moves each distance by at most one of its increments in x and y
pub proof fn lemma_di3_step(d: DistanceInterpolator3, v: i64)
    requires
        di3_small(d),
    ensures
        ({
            let a = d.inc_x_spec(v);
            let b = d.dec_x_spec(v);
            let c = d.inc_y_spec(v);
            let e = d.dec_y_spec(v);
            &&& a.dx == d.dx && a.dy == d.dy && a.dx_start == d.dx_start && a.dy_start == d.dy_start
            &&& b.dx == d.dx && b.dy == d.dy && b.dx_start == d.dx_start && b.dy_start == d.dy_start
            &&& c.dx == d.dx && c.dy == d.dy && c.dx_start == d.dx_start && c.dy_start == d.dy_start
            &&& e.dx == d.dx && e.dy == d.dy && e.dx_start == d.dx_start && e.dy_start == d.dy_start
            &&& a.dx_end == d.dx_end && a.dy_end == d.dy_end && b.dx_end == d.dx_end && b.dy_end == d.dy_end
            &&& c.dx_end == d.dx_end && c.dy_end == d.dy_end && e.dx_end == d.dx_end && e.dy_end == d.dy_end
            &&& iabs(a.dist - d.dist) <= iabs(d.dx as int) + iabs(d.dy as int)
            &&& iabs(b.dist - d.dist) <= iabs(d.dx as int) + iabs(d.dy as int)
            &&& iabs(c.dist - d.dist) <= iabs(d.dx as int) + iabs(d.dy as int)
            &&& iabs(e.dist - d.dist) <= iabs(d.dx as int) + iabs(d.dy as int)
            &&& iabs(a.dist_start - d.dist_start) <= iabs(d.dx_start as int) + iabs(d.dy_start as int)
            &&& iabs(b.dist_start - d.dist_start) <= iabs(d.dx_start as int) + iabs(d.dy_start as int)
            &&& iabs(c.dist_start - d.dist_start) <= iabs(d.dx_start as int) + iabs(d.dy_start as int)
            &&& iabs(e.dist_start - d.dist_start) <= iabs(d.dx_start as int) + iabs(d.dy_start as int)
            &&& iabs(a.dist_end - d.dist_end) <= iabs(d.dx_end as int) + iabs(d.dy_end as int)
            &&& iabs(b.dist_end - d.dist_end) <= iabs(d.dx_end as int) + iabs(d.dy_end as int)
            &&& iabs(c.dist_end - d.dist_end) <= iabs(d.dx_end as int) + iabs(d.dy_end as int)
            &&& iabs(e.dist_end - d.dist_end) <= iabs(d.dx_end as int) + iabs(d.dy_end as int)
        }),
{
}

/// Stepping back along a line moves the distances by at most one step each
#[verifier::rlimit(60)]
#[verifier::spinoff_prover]
pub proof fn lemma_back_di3(lp: LineParameters, di0: DistanceInterpolator3, j: nat)
    requires
        iabs(di0.dist as int) <= 0x10_0000_0000_0000,
        iabs(di0.dist_start as int) <= 0x8_0000_0000_0000,
        iabs(di0.dist_end as int) <= 0x8_0000_0000_0000,
        iabs(di0.dx as int) <= 0x4_0000_0000,
        iabs(di0.dy as int) <= 0x4_0000_0000,
        iabs(di0.dx_start as int) <= 0x1000_0000,
        iabs(di0.dy_start as int) <= 0x1000_0000,
        iabs(di0.dx_end as int) <= 0x1000_0000,
        iabs(di0.dy_end as int) <= 0x1000_0000,
        j <= 0x100_0000,
    ensures
        back_di(lp, di0, j).dx == di0.dx,
        back_di(lp, di0, j).dy == di0.dy,
        back_di(lp, di0, j).dx_start == di0.dx_start,
        back_di(lp, di0, j).dy_start == di0.dy_start,
        back_di(lp, di0, j).dx_end == di0.dx_end,
        back_di(lp, di0, j).dy_end == di0.dy_end,
        iabs(back_di(lp, di0, j).dist - di0.dist) <= j * 0x8_0000_0000,
        iabs(back_di(lp, di0, j).dist_start - di0.dist_start) <= j * 0x2000_0000,
        iabs(back_di(lp, di0, j).dist_end - di0.dist_end) <= j * 0x2000_0000,
        di3_small(back_di(lp, di0, j)),
    decreases j,
{
    if j > 0 {
        lemma_back_di3(lp, di0, (j - 1) as nat);
        let prev = back_di(lp, di0, (j - 1) as nat);
        let v = (back_pos(lp, j) - back_pos(lp, (j - 1) as nat)) as i64;
        lemma_di3_step(prev, v);
        let cur = back_di(lp, di0, j);
        assert(cur == (if lp.vertical {
            if lp.inc > 0 { prev.dec_y_spec(v) } else { prev.inc_y_spec(v) }
        } else {
            if lp.inc > 0 { prev.dec_x_spec(v) } else { prev.inc_x_spec(v) }
        }));
        assert(((j - 1) as nat) * 0x8_0000_0000 + 0x8_0000_0000 == j * 0x8_0000_0000);
        assert(((j - 1) as nat) * 0x2000_0000 + 0x2000_0000 == j * 0x2000_0000);
    }
}

/// A start and end distance interpolator stays small from a line in range
pub proof fn lemma_di3_new_small(x1: i64, y1: i64, x2: i64, y2: i64,
                                 sx: i64, sy: i64, ex: i64, ey: i64, x: i64, y: i64)
    requires
        in_coord(x1 as int), in_coord(y1 as int), in_coord(x2 as int), in_coord(y2 as int),
        in_coord(x as int), in_coord(y as int), in_aux(sx as int), in_aux(sy as int),
        in_aux(ex as int), in_aux(ey as int),
    ensures
        ({
            let d = DistanceInterpolator3::new_spec(x1, y1, x2, y2, sx, sy, ex, ey, x, y);
            &&& iabs(d.dist as int) <= 0x10_0000_0000_0000
            &&& iabs(d.dist_start as int) <= 0x8_0000_0000_0000
            &&& iabs(d.dist_end as int) <= 0x8_0000_0000_0000
            &&& iabs(d.dx as int) <= 0x4_0000_0000
            &&& iabs(d.dy as int) <= 0x4_0000_0000
            &&& iabs(d.dx_start as int) <= 0x1000_0000
            &&& iabs(d.dy_start as int) <= 0x1000_0000
            &&& iabs(d.dx_end as int) <= 0x1000_0000
            &&& iabs(d.dy_end as int) <= 0x1000_0000
        }),
{
    let dxs = mr(sx as int) - mr(x1 as int);
    let dys = mr(sy as int) - mr(y1 as int);
    let dxe = mr(ex as int) - mr(x2 as int);
    let dye = mr(ey as int) - mr(y2 as int);
    lemma_mr(sx as int); lemma_mr(sy as int); lemma_mr(x1 as int); lemma_mr(y1 as int);
    lemma_mr(x2 as int); lemma_mr(y2 as int); lemma_mr(x + 128); lemma_mr(y + 128);
    lemma_mr(ex as int); lemma_mr(ey as int);
    lemma_mul_bound(x + 128 - x2, y2 - y1, 0x200_0080, 0x200_0000);
    lemma_mul_bound(y + 128 - y2, x2 - x1, 0x200_0080, 0x200_0000);
    lemma_mul_bound(mr(x + 128) - mr(sx as int), dys, 0x80_0020, 0x80_0020);
    lemma_mul_bound(mr(y + 128) - mr(sy as int), dxs, 0x80_0020, 0x80_0020);
    lemma_mul_bound(mr(x + 128) - mr(ex as int), dye, 0x80_0020, 0x80_0020);
    lemma_mul_bound(mr(y + 128) - mr(ey as int), dxe, 0x80_0020, 0x80_0020);
}

/// Number of pixels before the start line in the spread `j` steps back
pub open spec fn back_npix3(lp: LineParameters, di0: DistanceInterpolator3, m: int, j: nat) -> int {
    let d = back_di(lp, di0, j);
    let step = if lp.vertical { d.dy_start as int } else { -d.dx_start };
    (if j == 1 { 1int } else { 0 }) + pixels_before(d.dist_start as int, step, m)
}

/// The distance interpolator that `AA3::new` starts from
pub open spec fn aa3_di0(lp: LineParameters, sx: i64, sy: i64, ex: i64, ey: i64) -> DistanceInterpolator3 {
    DistanceInterpolator3::new_spec(lp.x1, lp.y1, lp.x2, lp.y2, sx, sy, ex, ey,
        ((lp.x1 / 256) * 256) as i64, ((lp.y1 / 256) * 256) as i64)
}

} // verus!

verus! {

/// Interpolator for a line cut by bisectrices at both ends
#[derive(Debug)]
pub struct AA3 {
    pub di: DistanceInterpolator3,
    pub li: LineInterpolatorAA,
}

/// The state `AA3::new` leaves after `k` steps back from the start of the line
pub open spec fn aa3_start(lp: LineParameters, sx: i64, sy: i64, ex: i64, ey: i64,
                           subpixel_width: i64, s: AA3, k: int) -> bool {
    let kn = k as nat;
    let di0 = aa3_di0(lp, sx, sy, ex, ey);
    let m = first_above(s.li.dist@, subpixel_width as int, 1);
    let f = crate::render::dda_dec_n(LineInterpolatorAA::line_dda(lp), kn);
    &&& 1 <= k <= s.li.max_extent + 1
    &&& s.di == back_di(lp, di0, kn)
    &&& s.li.li.fields() == (f.0, f.1, f.2, f.3 - f.0, f.4)
    &&& (lp.vertical ==> {
        &&& s.li.y == lp.y1 / 256 - k * lp.inc
        &&& s.li.x == back_pos(lp, kn)
        &&& s.li.old_x == s.li.x
        &&& s.li.old_y == lp.y1 / 256
    })
    &&& (!lp.vertical ==> {
        &&& s.li.x == lp.x1 / 256 - k * lp.inc
        &&& s.li.y == back_pos(lp, kn)
        &&& s.li.old_y == s.li.y
        &&& s.li.old_x == lp.x1 / 256
    })
    // steps back stop at the first one with no pixel before the
    // start, or after max_extent + 1 steps
    &&& forall|j: int| 1 <= j < k ==>
        #[trigger] back_npix3(lp, di0, m, j as nat) != 0 && j <= s.li.max_extent
    &&& back_npix3(lp, di0, m, kn) == 0 || k > s.li.max_extent
    &&& s.li.step == -k + (if back_npix3(lp, di0, m, kn) == 0 { 1int } else { 0 }) - s.li.max_extent
}

impl AA3 {
    pub fn new(lp: LineParameters, sx: i64, sy: i64, ex: i64, ey: i64, subpixel_width: i64) -> (s: Self)
        requires
            lp.wf(),
            0 <= subpixel_width < WIDTH_LIMIT,
            in_aux(sx as int), in_aux(sy as int), in_aux(ex as int), in_aux(ey as int),
        ensures
            exists|k: int| #[trigger] aa3_start(lp, sx, sy, ex, ey, subpixel_width, s, k),
            s.li.lp == lp,
            s.li.setup(lp, subpixel_width),
    {
        let mut li = LineInterpolatorAA::new(lp, subpixel_width);
        proof {
            crate::fixed::lemma_mask8(lp.x1);
            crate::fixed::lemma_mask8(lp.y1);
            lemma_line_dda_bounds(lp);
            lemma_di3_new_small(lp.x1, lp.y1, lp.x2, lp.y2, sx, sy, ex, ey,
                ((lp.x1 / 256) * 256) as i64, ((lp.y1 / 256) * 256) as i64);
        }
        let mut di = DistanceInterpolator3::new(lp.x1, lp.y1, lp.x2, lp.y2, sx, sy, ex, ey,
                                                 lp.x1 & !POLY_SUBPIXEL_MASK,
                                                 lp.y1 & !POLY_SUBPIXEL_MASK);
        let ghost di0 = di;
        let ghost li0 = li;
        let ghost f0 = li.li.fields();
        let ghost m = first_above(li.dist@, subpixel_width as int, 1);
        let ghost mut k: int = 0;
        let mut npix: i64 = 1;
        proof { reveal(back_pos); }
        if lp.vertical {
            loop
                invariant_except_break
                    k == -li.step,
                    0 <= k <= li.max_extent,
                    npix == (if k == 0 { 1int } else { 0 }),
                    li.li.fields() == crate::render::dda_dec_n(f0, k as nat),
                    li.x == back_pos(lp, k as nat),
                    li.old_x == li.x,
                    li.y == lp.y1 / 256 - k * lp.inc,
                    di == back_di(lp, di0, k as nat),
                    forall|j: int| 1 <= j <= k ==> #[trigger] back_npix3(lp, di0, m, j as nat) != 0,
                invariant
                    li.lp == lp, li.len == li0.len, li.count == li0.count, li.width == li0.width,
                    li.max_extent == li0.max_extent, li.dist == li0.dist, li.covers == li0.covers,
                    li.old_y == li0.old_y,
                    li0.fresh(lp, subpixel_width),
                    di0 == aa3_di0(lp, sx, sy, ex, ey),
                    f0 == LineInterpolatorAA::line_dda(lp),
                    m == first_above(li0.dist@, subpixel_width as int, 1),
                    lp.wf(), lp.vertical, lp.inc == 1 || lp.inc == -1,
                    li0.max_extent <= 0x80_0001,
                    0 < f0.0 <= 0x200_0001, crate::fixed::iabs(f0.1) <= 257,
                    crate::fixed::iabs(f0.2) <= 0x400_0002, crate::fixed::iabs(f0.3) <= 0x400_0002,
                    f0.4 == 0,
                    iabs(di0.dist as int) <= 0x10_0000_0000_0000,
                    iabs(di0.dist_start as int) <= 0x8_0000_0000_0000,
                    iabs(di0.dx as int) <= 0x4_0000_0000,
                    iabs(di0.dy as int) <= 0x4_0000_0000,
                    iabs(di0.dx_start as int) <= 0x1000_0000,
                    iabs(di0.dy_start as int) <= 0x1000_0000,
                    iabs(di0.dist_end as int) <= 0x8_0000_0000_0000,
                    iabs(di0.dx_end as int) <= 0x1000_0000,
                    iabs(di0.dy_end as int) <= 0x1000_0000,
                ensures
                    1 <= k <= li.max_extent + 1,
                    li.step == -k + (if back_npix3(lp, di0, m, k as nat) == 0 { 1int } else { 0 }),
                    li.li.fields() == crate::render::dda_dec_n(f0, k as nat),
                    li.x == back_pos(lp, k as nat),
                    li.old_x == li.x,
                    li.y == lp.y1 / 256 - k * lp.inc,
                    di == back_di(lp, di0, k as nat),
                    forall|j: int| 1 <= j < k ==> #[trigger] back_npix3(lp, di0, m, j as nat) != 0 && j <= li.max_extent,
                    back_npix3(lp, di0, m, k as nat) == 0 || k > li.max_extent,
                decreases li.max_extent - k,
            {
                proof {
                    crate::render::lemma_dda_dec_n_bounds(f0, k as nat);
                    lemma_mul_bound(k, iabs(f0.1) + 1, 0x80_0000, 258);
                    lemma_mul_bound(k, iabs(f0.2) + iabs(f0.0), 0x80_0000, 0x600_0003);
                    lemma_back_di3(lp, di0, k as nat);
                }
                proof {
                    assert((k + 1) * lp.inc == k * lp.inc + lp.inc) by (nonlinear_arith);
                    lemma_mul_bound(k, lp.inc as int, 0x80_0001, 1);
                }
                li.li.dec();
                li.y -= lp.inc;
                proof {
                    crate::fixed::lemma_shr8((li.lp.x1 + li.li.y) as i64);
                    reveal(back_pos);
                }
                li.x = (li.lp.x1 + li.li.y) >> POLY_SUBPIXEL_SHIFT;

                if lp.inc > 0 {
                    di.dec_y(li.x - li.old_x);
                } else {
                    di.inc_y(li.x - li.old_x);
                }
                li.old_x = li.x;
                proof {
                    k = k + 1;
                    lemma_back_di3(lp, di0, k as nat);
                }

                let mut dist1_start: i64 = di.dist_start;
                let mut dist2_start: i64 = di.dist_start;
                let ghost ds: int = di.dist_start as int;
                let ghost npix0: int = npix as int;

                let mut dx: usize = 0;
                if dist1_start < 0 {
                    npix += 1;
                }
                loop
                    invariant_except_break
                        dx < 64,
                        forall|t: int| 1 <= t <= dx ==> #[trigger] li.dist@[t] <= li.width,
                    invariant
                        0 <= dx <= 64,
                        dist1_start == ds + dx * di.dy_start,
                        dist2_start == ds - dx * di.dy_start,
                        npix == npix0 + (if ds < 0 { 1int } else { 0 }) + count_neg(ds, di.dy_start as int, dx as int),
                        iabs(ds) <= 0x40_0000_0000_0000,
                        iabs(di.dy_start as int) <= 0x1000_0000,
                        0 <= npix0 <= 1,
                        li.dist == li0.dist, li.width == li0.width,
                        li0.tables_ok(),
                    ensures
                        1 <= dx <= 64,
                        li.dist@[dx as int] > li.width,
                        forall|t: int| 1 <= t < dx ==> #[trigger] li.dist@[t] <= li.width,
                        npix == npix0 + pixels_before(ds, di.dy_start as int, dx as int),
                    decreases 64 - dx,
                {
                    proof {
                        lemma_mul_bound(dx as int + 1, di.dy_start as int, 64, 0x1000_0000);
                        lemma_mul_bound(dx as int, di.dy_start as int, 64, 0x1000_0000);
                        lemma_count_neg_bound(ds, di.dy_start as int, dx as int);
                        assert((dx as int + 1) * di.dy_start == dx as int * di.dy_start + di.dy_start)
                            by (nonlinear_arith);
                    }
                    dist1_start += di.dy_start;
                    dist2_start -= di.dy_start;
                    if dist1_start < 0 {
                        npix += 1;
                    }
                    if dist2_start < 0 {
                        npix += 1;
                    }
                    dx += 1;
                    if li.dist[dx] > li.width {
                        break;
                    }
                }
                proof {
                    lemma_first_above(li.dist@, li.width as int, 1, dx as int);
                }
                if npix == 0 {
                    break;
                }
                npix = 0;
                li.step -= 1;
                if li.step < -li.max_extent {
                    break;
                }
            }
        } else {
            loop
                invariant_except_break
                    k == -li.step,
                    0 <= k <= li.max_extent,
                    npix == (if k == 0 { 1int } else { 0 }),
                    li.li.fields() == crate::render::dda_dec_n(f0, k as nat),
                    li.y == back_pos(lp, k as nat),
                    li.old_y == li.y,
                    li.x == lp.x1 / 256 - k * lp.inc,
                    di == back_di(lp, di0, k as nat),
                    forall|j: int| 1 <= j <= k ==> #[trigger] back_npix3(lp, di0, m, j as nat) != 0,
                invariant
                    li.lp == lp, li.len == li0.len, li.count == li0.count, li.width == li0.width,
                    li.max_extent == li0.max_extent, li.dist == li0.dist, li.covers == li0.covers,
                    li.old_x == li0.old_x,
                    li0.fresh(lp, subpixel_width),
                    di0 == aa3_di0(lp, sx, sy, ex, ey),
                    f0 == LineInterpolatorAA::line_dda(lp),
                    m == first_above(li0.dist@, subpixel_width as int, 1),
                    lp.wf(), !lp.vertical, lp.inc == 1 || lp.inc == -1,
                    li0.max_extent <= 0x80_0001,
                    0 < f0.0 <= 0x200_0001, crate::fixed::iabs(f0.1) <= 257,
                    crate::fixed::iabs(f0.2) <= 0x400_0002, crate::fixed::iabs(f0.3) <= 0x400_0002,
                    f0.4 == 0,
                    iabs(di0.dist as int) <= 0x10_0000_0000_0000,
                    iabs(di0.dist_start as int) <= 0x8_0000_0000_0000,
                    iabs(di0.dx as int) <= 0x4_0000_0000,
                    iabs(di0.dy as int) <= 0x4_0000_0000,
                    iabs(di0.dx_start as int) <= 0x1000_0000,
                    iabs(di0.dy_start as int) <= 0x1000_0000,
                    iabs(di0.dist_end as int) <= 0x8_0000_0000_0000,
                    iabs(di0.dx_end as int) <= 0x1000_0000,
                    iabs(di0.dy_end as int) <= 0x1000_0000,
                ensures
                    1 <= k <= li.max_extent + 1,
                    li.step == -k + (if back_npix3(lp, di0, m, k as nat) == 0 { 1int } else { 0 }),
                    li.li.fields() == crate::render::dda_dec_n(f0, k as nat),
                    li.y == back_pos(lp, k as nat),
                    li.old_y == li.y,
                    li.x == lp.x1 / 256 - k * lp.inc,
                    di == back_di(lp, di0, k as nat),
                    forall|j: int| 1 <= j < k ==> #[trigger] back_npix3(lp, di0, m, j as nat) != 0 && j <= li.max_extent,
                    back_npix3(lp, di0, m, k as nat) == 0 || k > li.max_extent,
                decreases li.max_extent - k,
            {
                proof {
                    crate::render::lemma_dda_dec_n_bounds(f0, k as nat);
                    lemma_mul_bound(k, iabs(f0.1) + 1, 0x80_0000, 258);
                    lemma_mul_bound(k, iabs(f0.2) + iabs(f0.0), 0x80_0000, 0x600_0003);
                    lemma_back_di3(lp, di0, k as nat);
                }
                proof {
                    assert((k + 1) * lp.inc == k * lp.inc + lp.inc) by (nonlinear_arith);
                    lemma_mul_bound(k, lp.inc as int, 0x80_0001, 1);
                }
                li.li.dec();
                li.x -= lp.inc;
                proof {
                    crate::fixed::lemma_shr8((li.lp.y1 + li.li.y) as i64);
                    reveal(back_pos);
                }
                li.y = (li.lp.y1 + li.li.y) >> POLY_SUBPIXEL_SHIFT;
                if lp.inc > 0 {
                    di.dec_x(li.y - li.old_y);
                } else {
                    di.inc_x(li.y - li.old_y);
                }
                li.old_y = li.y;
                proof {
                    k = k + 1;
                    lemma_back_di3(lp, di0, k as nat);
                }

                let mut dist1_start: i64 = di.dist_start;
                let mut dist2_start: i64 = di.dist_start;
                let ghost ds: int = di.dist_start as int;
                let ghost npix0: int = npix as int;

                let mut dy: usize = 0;
                if dist1_start < 0 {
                    npix += 1;
                }
                loop
                    invariant_except_break
                        dy < 64,
                        forall|t: int| 1 <= t <= dy ==> #[trigger] li.dist@[t] <= li.width,
                    invariant
                        0 <= dy <= 64,
                        dist1_start == ds - dy * di.dx_start,
                        dist2_start == ds + dy * di.dx_start,
                        npix == npix0 + (if ds < 0 { 1int } else { 0 }) + count_neg(ds, -di.dx_start, dy as int),
                        iabs(ds) <= 0x40_0000_0000_0000,
                        iabs(di.dx_start as int) <= 0x1000_0000,
                        0 <= npix0 <= 1,
                        li.dist == li0.dist, li.width == li0.width,
                        li0.tables_ok(),
                    ensures
                        1 <= dy <= 64,
                        li.dist@[dy as int] > li.width,
                        forall|t: int| 1 <= t < dy ==> #[trigger] li.dist@[t] <= li.width,
                        npix == npix0 + pixels_before(ds, -di.dx_start, dy as int),
                    decreases 64 - dy,
                {
                    proof {
                        lemma_mul_bound(dy as int + 1, di.dx_start as int, 64, 0x1000_0000);
                        lemma_mul_bound(dy as int, di.dx_start as int, 64, 0x1000_0000);
                        lemma_count_neg_bound(ds, -di.dx_start, dy as int);
                        assert((dy as int + 1) * di.dx_start == dy as int * di.dx_start + di.dx_start)
                            by (nonlinear_arith);
                        assert((dy as int + 1) * (-di.dx_start) == -((dy as int + 1) * di.dx_start))
                            by (nonlinear_arith);
                    }
                    dist1_start -= di.dx_start;
                    dist2_start += di.dx_start;
                    if dist1_start < 0 {
                        npix += 1;
                    }
                    if dist2_start < 0 {
                        npix += 1;
                    }
                    dy += 1;
                    if li.dist[dy] > li.width {
                        break;
                    }
                }
                proof {
                    lemma_first_above(li.dist@, li.width as int, 1, dy as int);
                }
                if npix == 0 {
                    break;
                }
                npix = 0;
                li.step -= 1;
                if li.step < -li.max_extent {
                    break;
                }
            }
        }
        proof {
            crate::render::lemma_dda_dec_n_bounds(f0, k as nat);
            lemma_mul_bound(k, iabs(f0.2) + iabs(f0.0), 0x80_0002, 0x600_0003);
        }
        li.li.adjust_forward();
        li.step -= li.max_extent;
        let s = AA3 { li, di };
        assert(aa3_start(lp, sx, sy, ex, ey, subpixel_width, s, k));
        s
    }
}

} // verus!

verus! {

/// Number of `t` in `1..=m` whose pixel lies before the end line (`de + t * e > 0`)
/// and not before the start line (`ds + t * s <= 0`)
pub open spec fn count_inside(ds: int, s: int, de: int, e: int, m: int) -> int
    decreases m,
{
    if m <= 0 {
        0
    } else {
        count_inside(ds, s, de, e, m - 1)
            + (if de + m * e > 0 && ds + m * s <= 0 { 1int } else { 0 })
    }
}

pub proof fn lemma_count_inside_bound(ds: int, s: int, de: int, e: int, m: int)
    requires
        m >= 0,
    ensures
        0 <= count_inside(ds, s, de, e, m) <= m,
    decreases m,
{
    if m > 0 {
        lemma_count_inside_bound(ds, s, de, e, m - 1);
    }
}

impl AA3 {
    pub fn vertical(&self) -> (r: bool)
        ensures
            r == self.li.lp.vertical,
    {
        self.li.lp.vertical
    }

    /// Conduct a horizontal step
    ///
    /// Draws the column of coverages from the pixel toward growing rows;
    /// pixels before the start line or past the end line get no coverage.
    /// The step counter counts down. Returns whether any pixel was inside
    /// and the counter is below the pixel count.
    pub fn step_hor<R: RenderOutline>(&mut self, ren: &mut R) -> (r: bool)
        requires
            old(self).li.ready(),
            old(self).di.step_ok(),
            old(self).li.spread_ends(old(self).li.s1_hor(old(self).di)),
            // the loop toward decreasing rows never advances its distance, so
            // it must not be entered
            old(self).li.dist@[1] + old(self).li.s1_hor(old(self).di) > old(self).li.width,
            covers_queryable(old(ren), old(self).li.dist@, old(self).li.width as int,
                old(self).li.s1_hor(old(self).di)),
            spans_drawable(old(ren), true),
            ({
                let d = old(self).li.di_after_hor(old(self).di);
                &&& spread_fits(d.dist_start as int, d.dx_start as int, d.dy_start as int)
                &&& spread_fits(d.dist_end as int, d.dx_end as int, d.dy_end as int)
            }),
        ensures
            final(self).li.li.fields() == old(self).li.li.inc_spec(),
            final(self).li.x == old(self).li.x + old(self).li.lp.inc,
            final(self).li.y == old(self).li.y_after_hor(),
            final(self).li.old_y == final(self).li.y,
            final(self).li.old_x == old(self).li.old_x,
            final(self).di == old(self).li.di_after_hor(old(self).di),
            final(self).li.step == old(self).li.step - 1,
            final(self).li.dist == old(self).li.dist,
            final(self).li.lp == old(self).li.lp,
            final(self).li.len == old(self).li.len,
            final(self).li.count == old(self).li.count,
            final(self).li.width == old(self).li.width,
            final(self).li.max_extent == old(self).li.max_extent,
            final(self).li.tables_ok(),
            ({
                let s1 = old(self).li.s1_hor(old(self).di);
                let w = old(self).li.width as int;
                let ds = final(self).di.dist_start as int;
                let de = final(self).di.dist_end as int;
                let a = final(self).di.dx_start as int;
                let b = final(self).di.dx_end as int;
                let k1 = first_above(final(self).li.dist@, w + s1, 1);
                let npix = (if de > 0 { 1int } else { 0 }) + count_inside(ds, -a, de, -b, k1 - 1);
                &&& forall|t: int| 0 <= t < k1 ==> #[trigger] final(self).li.covers@[66 + t]
                        == (if de - t * b > 0 && ds - t * a <= 0 {
                            spread_cover(old(ren), old(self).li.dist@, s1, t)
                        } else {
                            0
                        })
                &&& old(ren).span_drawn(final(ren), final(self).li.x, final(self).li.y,
                        k1 as i64, final(self).li.covers@.subrange(66, 132), true)
                &&& r == (npix != 0 && final(self).li.step < final(self).li.count)
            }),
    {
        let ghost di_pre = self.di;
        let ghost li_pre = self.li;
        let s1: i64 = self.li.step_hor_base(&mut self.di);
        assert(self.di == li_pre.di_after_hor(di_pre));
        let ghost li0 = self.li;
        let ghost di0 = self.di;
        let ghost ds: int = self.di.dist_start as int;
        let ghost de: int = self.di.dist_end as int;
        let ghost a: int = self.di.dx_start as int;
        let ghost b: int = self.di.dx_end as int;
        let mut p0: usize = MAX_HALF_WIDTH + 2;
        let mut p1: usize = p0;

        let mut dist_start: i64 = self.di.dist_start;
        let mut dist_end: i64 = self.di.dist_end;

        let mut npix: i64 = 0;
        self.li.covers.set(p1, 0);
        if dist_end > 0 {
            if dist_start <= 0 {
                let c: u64 = ren.cover(s1);
                self.li.covers.set(p1, c);
            }
            npix += 1;
        }
        p1 += 1;

        let mut dy: usize = 1;
        let mut dist: i64 = self.li.dist[dy] - s1;
        assert(0 * a == 0 && 0 * b == 0);
        while dist <= self.li.width
            invariant
                1 <= dy <= 64,
                p1 == 66 + dy,
                p0 == 66,
                self.li.same_but_covers(&li0),
                self.di == di0,
                li0.tables_ok(),
                li0.spread_ends(s1 as int),
                spread_fits(ds, a, di0.dy_start as int),
                spread_fits(de, b, di0.dy_end as int),
                ds == di0.dist_start, a == di0.dx_start,
                de == di0.dist_end, b == di0.dx_end,
                dist == li0.dist@[dy as int] - s1,
                dist_start == ds - (dy - 1) * a,
                dist_end == de - (dy - 1) * b,
                npix == (if de > 0 { 1int } else { 0 }) + count_inside(ds, -a, de, -b, dy - 1),
                forall|k: int| 1 <= k < dy ==> #[trigger] li0.dist@[k] - s1 <= li0.width,
                *ren == *old(ren),
                covers_queryable(ren, li0.dist@, li0.width as int, s1 as int),
                forall|t: int| 0 <= t < dy ==> #[trigger] self.li.covers@[66 + t]
                    == (if de - t * b > 0 && ds - t * a <= 0 {
                        spread_cover(ren, li0.dist@, s1 as int, t)
                    } else {
                        0
                    }),
            decreases 64 - dy,
        {
            proof {
                lemma_mul_bound(dy as int, a, 64, iabs(a));
                lemma_mul_bound(dy as int, b, 64, iabs(b));
                assert(ds - dy * a == ds - (dy - 1) * a - a) by (nonlinear_arith);
                assert(de - dy * b == de - (dy - 1) * b - b) by (nonlinear_arith);
                assert(dy * (-a) == -(dy * a)) by (nonlinear_arith);
                assert(dy * (-b) == -(dy * b)) by (nonlinear_arith);
                lemma_count_inside_bound(ds, -a, de, -b, dy - 1);
            }
            dist_start -= self.di.dx_start;
            dist_end -= self.di.dx_end;
            self.li.covers.set(p1, 0);
            if dist_end > 0 && dist_start <= 0 {
                let c: u64 = ren.cover(dist);
                self.li.covers.set(p1, c);
                npix += 1;
            }
            p1 += 1;
            dy += 1;
            dist = self.li.dist[dy] - s1;
        }
        proof {
            lemma_first_above(li0.dist@, li0.width + s1, 1, dy as int);
            li_pre.lemma_step_position();
        }

        dy = 1;
        dist = self.li.dist[dy] + s1;
        assert(dist > self.li.width);
        let covers = vstd::slice::slice_subrange(self.li.covers.as_slice(), p0, self.li.covers.len());
        ren.blend_solid_vspan(self.li.x,
                              self.li.y - dy as i64 + 1,
                              (p1 - p0) as i64,
                              covers);
        self.li.step -= 1;
        npix != 0 && self.li.step < self.li.count
    }
}

impl AA3 {
    /// Conduct a vertical step
    ///
    /// Draws the row of coverages around the next pixel; pixels before the
    /// start line or past the end line get no coverage. The step counter
    /// counts down. Returns whether any pixel was inside and the counter is
    /// below the pixel count.
    pub fn step_ver<R: RenderOutline>(&mut self, ren: &mut R) -> (r: bool)
        requires
            old(self).li.ready(),
            old(self).di.step_ok(),
            old(self).li.spread_ends(old(self).li.s1_ver(old(self).di)),
            covers_queryable(old(ren), old(self).li.dist@, old(self).li.width as int,
                old(self).li.s1_ver(old(self).di)),
            spans_drawable(old(ren), false),
            ({
                let d = old(self).li.di_after_ver(old(self).di);
                &&& spread_fits(d.dist_start as int, d.dx_start as int, d.dy_start as int)
                &&& spread_fits(d.dist_end as int, d.dx_end as int, d.dy_end as int)
            }),
        ensures
            final(self).li.li.fields() == old(self).li.li.inc_spec(),
            final(self).li.y == old(self).li.y + old(self).li.lp.inc,
            final(self).li.x == old(self).li.x_after_ver(),
            final(self).li.old_x == final(self).li.x,
            final(self).li.old_y == old(self).li.old_y,
            final(self).di == old(self).li.di_after_ver(old(self).di),
            final(self).li.step == old(self).li.step - 1,
            final(self).li.dist == old(self).li.dist,
            final(self).li.lp == old(self).li.lp,
            final(self).li.len == old(self).li.len,
            final(self).li.count == old(self).li.count,
            final(self).li.width == old(self).li.width,
            final(self).li.max_extent == old(self).li.max_extent,
            final(self).li.tables_ok(),
            ({
                let s1 = old(self).li.s1_ver(old(self).di);
                let w = old(self).li.width as int;
                let ds = final(self).di.dist_start as int;
                let de = final(self).di.dist_end as int;
                let a = final(self).di.dy_start as int;
                let b = final(self).di.dy_end as int;
                let k1 = first_above(final(self).li.dist@, w + s1, 1);
                let k2 = first_above(final(self).li.dist@, w - s1, 1);
                let npix = (if de > 0 { 1int } else { 0 }) + count_inside(ds, a, de, b, k1 - 1)
                    + count_inside(ds, -a, de, -b, k2 - 1);
                &&& forall|t: int| -k2 < t < k1 ==> #[trigger] final(self).li.covers@[66 + t]
                        == (if de + t * b > 0 && ds + t * a <= 0 {
                            spread_cover(old(ren), old(self).li.dist@, s1, t)
                        } else {
                            0
                        })
                &&& old(ren).span_drawn(final(ren), (final(self).li.x - k2 + 1) as i64, final(self).li.y,
                        (k1 + k2 - 1) as i64, final(self).li.covers@.subrange(67 - k2, 66 + k1), false)
                &&& r == (npix != 0 && final(self).li.step < final(self).li.count)
            }),
    {
        let ghost di_pre = self.di;
        let ghost li_pre = self.li;
        let s1: i64 = self.li.step_ver_base(&mut self.di);
        assert(self.di == li_pre.di_after_ver(di_pre));
        let ghost li0 = self.li;
        let ghost di0 = self.di;
        let ghost ds: int = self.di.dist_start as int;
        let ghost de: int = self.di.dist_end as int;
        let ghost a: int = self.di.dy_start as int;
        let ghost b: int = self.di.dy_end as int;
        let mut p0: usize = MAX_HALF_WIDTH + 2;
        let mut p1: usize = p0;

        let mut dist_start: i64 = self.di.dist_start;
        let mut dist_end: i64 = self.di.dist_end;

        let mut npix: i64 = 0;
        self.li.covers.set(p1, 0);
        if dist_end > 0 {
            if dist_start <= 0 {
                let c: u64 = ren.cover(s1);
                self.li.covers.set(p1, c);
            }
            npix += 1;
        }
        p1 += 1;

        let mut dx: usize = 1;
        let mut dist: i64 = self.li.dist[dx] - s1;
        assert(0 * a == 0 && 0 * b == 0);
        while dist <= self.li.width
            invariant
                1 <= dx <= 64,
                p1 == 66 + dx,
                p0 == 66,
                self.li.same_but_covers(&li0),
                self.di == di0,
                li0.tables_ok(),
                li0.spread_ends(s1 as int),
                spread_fits(ds, di0.dx_start as int, a),
                spread_fits(de, di0.dx_end as int, b),
                ds == di0.dist_start, a == di0.dy_start,
                de == di0.dist_end, b == di0.dy_end,
                dist == li0.dist@[dx as int] - s1,
                dist_start == ds + (dx - 1) * a,
                dist_end == de + (dx - 1) * b,
                npix == (if de > 0 { 1int } else { 0 }) + count_inside(ds, a, de, b, dx - 1),
                forall|k: int| 1 <= k < dx ==> #[trigger] li0.dist@[k] - s1 <= li0.width,
                *ren == *old(ren),
                covers_queryable(ren, li0.dist@, li0.width as int, s1 as int),
                forall|t: int| 0 <= t < dx ==> #[trigger] self.li.covers@[66 + t]
                    == (if de + t * b > 0 && ds + t * a <= 0 {
                        spread_cover(ren, li0.dist@, s1 as int, t)
                    } else {
                        0
                    }),
            decreases 64 - dx,
        {
            proof {
                lemma_mul_bound(dx as int, a, 64, iabs(a));
                lemma_mul_bound(dx as int, b, 64, iabs(b));
                assert(ds + dx * a == ds + (dx - 1) * a + a) by (nonlinear_arith);
                assert(de + dx * b == de + (dx - 1) * b + b) by (nonlinear_arith);
                lemma_count_inside_bound(ds, a, de, b, dx - 1);
            }
            dist_start += self.di.dy_start;
            dist_end += self.di.dy_end;
            self.li.covers.set(p1, 0);
            if dist_end > 0 && dist_start <= 0 {
                let c: u64 = ren.cover(dist);
                self.li.covers.set(p1, c);
                npix += 1;
            }
            p1 += 1;
            dx += 1;
            dist = self.li.dist[dx] - s1;
        }
        proof {
            lemma_first_above(li0.dist@, li0.width + s1, 1, dx as int);
            lemma_count_inside_bound(ds, a, de, b, dx - 1);
        }
        let ghost k1: int = dx as int;
        let ghost npix1: int = npix as int;

        dx = 1;
        dist_start = self.di.dist_start;
        dist_end = self.di.dist_end;
        dist = self.li.dist[dx] + s1;
        while dist <= self.li.width
            invariant
                1 <= dx <= 64,
                p0 == 67 - dx,
                p1 == 66 + k1,
                self.li.same_but_covers(&li0),
                self.di == di0,
                li0.tables_ok(),
                li0.spread_ends(s1 as int),
                spread_fits(ds, di0.dx_start as int, a),
                spread_fits(de, di0.dx_end as int, b),
                ds == di0.dist_start, a == di0.dy_start,
                de == di0.dist_end, b == di0.dy_end,
                dist == li0.dist@[dx as int] + s1,
                dist_start == ds - (dx - 1) * a,
                dist_end == de - (dx - 1) * b,
                0 <= npix1 <= 64,
                npix == npix1 + count_inside(ds, -a, de, -b, dx - 1),
                forall|k: int| 1 <= k < dx ==> #[trigger] li0.dist@[k] + s1 <= li0.width,
                *ren == *old(ren),
                covers_queryable(ren, li0.dist@, li0.width as int, s1 as int),
                forall|t: int| -dx < t < k1 ==> #[trigger] self.li.covers@[66 + t]
                    == (if de + t * b > 0 && ds + t * a <= 0 {
                        spread_cover(ren, li0.dist@, s1 as int, t)
                    } else {
                        0
                    }),
                1 <= k1 <= 64,
            decreases 64 - dx,
        {
            proof {
                lemma_mul_bound(dx as int, a, 64, iabs(a));
                lemma_mul_bound(dx as int, b, 64, iabs(b));
                assert(ds - dx * a == ds - (dx - 1) * a - a) by (nonlinear_arith);
                assert(de - dx * b == de - (dx - 1) * b - b) by (nonlinear_arith);
                assert(dx * (-a) == -(dx * a)) by (nonlinear_arith);
                assert(dx * (-b) == -(dx * b)) by (nonlinear_arith);
                assert(de + (-(dx as int)) * b == de - dx * b) by (nonlinear_arith);
                assert(ds + (-(dx as int)) * a == ds - dx * a) by (nonlinear_arith);
                lemma_count_inside_bound(ds, -a, de, -b, dx - 1);
            }
            dist_start -= self.di.dy_start;
            dist_end -= self.di.dy_end;
            p0 -= 1;
            self.li.covers.set(p0, 0);
            if dist_end > 0 && dist_start <= 0 {
                let c: u64 = ren.cover(dist);
                self.li.covers.set(p0, c);
                npix += 1;
            }
            dx += 1;
            dist = self.li.dist[dx] + s1;
        }
        proof {
            lemma_first_above(li0.dist@, li0.width - s1, 1, dx as int);
            li_pre.lemma_step_position();
        }
        let covers = vstd::slice::slice_subrange(self.li.covers.as_slice(), p0, p1);
        ren.blend_solid_hspan(self.li.x - dx as i64 + 1,
                              self.li.y,
                              (p1 - p0) as i64,
                              covers);
        self.li.step -= 1;
        npix != 0 && self.li.step < self.li.count
    }
}

} // verus!

verus! {

impl LineParameters {
    /// Create a new Interpolator
    pub fn interp0(&self, subpixel_width: i64) -> (s: AA0)
        requires
            self.wf(),
            0 <= subpixel_width < WIDTH_LIMIT,
        ensures
            s.li.fresh(*self, subpixel_width),
            ({
                let f = LineInterpolatorAA::line_dda(*self);
                s.li.li.fields() == (f.0, f.1, f.2, f.3 - f.0, f.4)
            }),
            s.di == DistanceInterpolator1::new_spec(self.x1, self.y1, self.x2, self.y2,
                ((self.x1 / 256) * 256) as i64, ((self.y1 / 256) * 256) as i64),
    {
        AA0::new(*self, subpixel_width)
    }

    /// Create a new Interpolator whose start is cut by the bisectrix toward (`sx`,`sy`)
    pub fn interp1(&self, sx: i64, sy: i64, subpixel_width: i64) -> (s: AA1)
        requires
            self.wf(),
            0 <= subpixel_width < WIDTH_LIMIT,
            in_aux(sx as int), in_aux(sy as int),
        ensures
            aa1_start(*self, sx, sy, subpixel_width, s, -s.li.step),
            s.li.setup(*self, subpixel_width),
    {
        AA1::new(*self, sx, sy, subpixel_width)
    }

    /// Create a new Interpolator whose end is cut by the bisectrix toward (`ex`,`ey`)
    pub fn interp2(&self, ex: i64, ey: i64, subpixel_width: i64) -> (s: AA2)
        requires
            self.wf(),
            0 <= subpixel_width < WIDTH_LIMIT,
            in_aux(ex as int), in_aux(ey as int),
        ensures
            s.li.setup(*self, subpixel_width),
            s.li.x == self.x1 / 256,
            s.li.y == self.y1 / 256,
            s.li.old_x == s.li.x,
            s.li.old_y == s.li.y,
            s.li.step == -s.li.max_extent,
            ({
                let f = LineInterpolatorAA::line_dda(*self);
                s.li.li.fields() == (f.0, f.1, f.2, f.3 - f.0, f.4)
            }),
            s.di == DistanceInterpolator2::new_spec(self.x1, self.y1, self.x2, self.y2, ex, ey,
                ((self.x1 / 256) * 256) as i64, ((self.y1 / 256) * 256) as i64, false),
    {
        AA2::new(*self, ex, ey, subpixel_width)
    }

    /// Create a new Interpolator cut by bisectrices at both ends
    pub fn interp3(&self, sx: i64, sy: i64, ex: i64, ey: i64, subpixel_width: i64) -> (s: AA3)
        requires
            self.wf(),
            0 <= subpixel_width < WIDTH_LIMIT,
            in_aux(sx as int), in_aux(sy as int), in_aux(ex as int), in_aux(ey as int),
        ensures
            exists|k: int| #[trigger] aa3_start(*self, sx, sy, ex, ey, subpixel_width, s, k),
            s.li.setup(*self, subpixel_width),
    {
        AA3::new(*self, sx, sy, ex, ey, subpixel_width)
    }
}

impl Default for LineParameters {
    fn default() -> (s: Self)
        ensures
            s == (LineParameters { x1: 0, y1: 0, x2: 0, y2: 0, dx: 0, dy: 0, sx: 0, sy: 0,
                vertical: false, inc: 0, len: 0, octant: 0 }),
    {
        LineParameters { x1: 0, y1: 0, x2: 0, y2: 0, dx: 0, dy: 0, sx: 0, sy: 0,
            vertical: false, inc: 0, len: 0, octant: 0 }
    }
}

/// State carried between the segments of an outline
#[derive(Debug)]
pub struct DrawVars {
    pub idx: usize,
    pub x1: i64,
    pub y1: i64,
    pub x2: i64,
    pub y2: i64,
    pub curr: LineParameters,
    pub next: LineParameters,
    pub lcurr: i64,
    pub lnext: i64,
    pub xb1: i64,
    pub yb1: i64,
    pub xb2: i64,
    pub yb2: i64,
    pub flags: u8,
}

impl DrawVars {
    /// Everything zero
    pub fn new() -> (s: Self)
        ensures
            s.idx == 0 && s.x1 == 0 && s.y1 == 0 && s.x2 == 0 && s.y2 == 0,
            s.lcurr == 0 && s.lnext == 0 && s.flags == 0,
            s.xb1 == 0 && s.yb1 == 0 && s.xb2 == 0 && s.yb2 == 0,
            s.curr == (LineParameters { x1: 0, y1: 0, x2: 0, y2: 0, dx: 0, dy: 0, sx: 0, sy: 0,
                vertical: false, inc: 0, len: 0, octant: 0 }),
            s.next == s.curr,
    {
        DrawVars {
            idx: 0, x1: 0, y1: 0, x2: 0, y2: 0,
            curr: LineParameters::default(), next: LineParameters::default(),
            lcurr: 0, lnext: 0, xb1: 0, yb1: 0, xb2: 0, yb2: 0, flags: 0,
        }
    }
}

} // verus!

verus! {

/// A step back with the opposite move of the other coordinate undoes a step
/// forward, in x and in y alike
pub proof fn lemma_step_inverse(dist: int, dx: int, dy: int, v: int)
    ensures
        step_dec_x(step_inc_x(dist, dx, dy, v), dx, dy, -v) == dist,
        step_inc_x(step_dec_x(dist, dx, dy, v), dx, dy, -v) == dist,
        step_dec_y(step_inc_y(dist, dx, dy, v), dx, dy, -v) == dist,
        step_inc_y(step_dec_y(dist, dx, dy, v), dx, dy, -v) == dist,
{
}

/// Sign of an integer
pub open spec fn sgn(v: int) -> int {
    if v > 0 { 1 } else if v < 0 { -1 } else { 0 }
}

/// The distance kept incrementally is the distance computed directly: one
/// step in x (the row moving by the sign of `v`) gives the interpolator made
/// at the pixel one step over, and so does one step in y
pub proof fn lemma_di1_step_is_direct(x1: i64, y1: i64, x2: i64, y2: i64, x: i64, y: i64, v: i64)
    requires
        in_coord(x1 as int), in_coord(y1 as int), in_coord(x2 as int), in_coord(y2 as int),
        -0x200_0000 <= x <= 0x200_0000,
        -0x200_0000 <= y <= 0x200_0000,
    ensures
        DistanceInterpolator1::new_spec(x1, y1, x2, y2, x, y).inc_x_spec(v)
            == DistanceInterpolator1::new_spec(x1, y1, x2, y2, (x + 256) as i64, (y + 256 * sgn(v as int)) as i64),
        DistanceInterpolator1::new_spec(x1, y1, x2, y2, x, y).dec_x_spec(v)
            == DistanceInterpolator1::new_spec(x1, y1, x2, y2, (x - 256) as i64, (y + 256 * sgn(v as int)) as i64),
        DistanceInterpolator1::new_spec(x1, y1, x2, y2, x, y).inc_y_spec(v)
            == DistanceInterpolator1::new_spec(x1, y1, x2, y2, (x + 256 * sgn(v as int)) as i64, (y + 256) as i64),
        DistanceInterpolator1::new_spec(x1, y1, x2, y2, x, y).dec_y_spec(v)
            == DistanceInterpolator1::new_spec(x1, y1, x2, y2, (x + 256 * sgn(v as int)) as i64, (y - 256) as i64),
{
    let s = sgn(v as int);
    let dx0 = x2 - x1;
    let dy0 = y2 - y1;
    lemma_di1_moved(x1, y1, x2, y2, x, y, 0, 0);
    lemma_di1_moved(x1, y1, x2, y2, x, y, 256, 256 * s);
    lemma_di1_moved(x1, y1, x2, y2, x, y, -256, 256 * s);
    lemma_di1_moved(x1, y1, x2, y2, x, y, 256 * s, 256);
    lemma_di1_moved(x1, y1, x2, y2, x, y, 256 * s, -256);
    lemma_shl8_spec(dx0);
    lemma_shl8_spec(dy0);
    assert(dx0 * 256 * s == 256 * s * dx0 && dy0 * 256 * s == 256 * s * dy0) by (nonlinear_arith);
}

/// `v * 256` of a coordinate difference fits in 64 bits
proof fn lemma_shl8_spec(v: int)
    requires
        -0x200_0000 <= v <= 0x200_0000,
    ensures
        fits_i64(v * 256),
{
}

/// The distance at a pixel moved by (`mx`,`my`) subpixels differs by
/// `mx * dy - my * dx`, and both stay far inside 64 bits
proof fn lemma_di1_moved(x1: i64, y1: i64, x2: i64, y2: i64, x: i64, y: i64, mx: int, my: int)
    requires
        in_coord(x1 as int), in_coord(y1 as int), in_coord(x2 as int), in_coord(y2 as int),
        -0x200_0000 <= x <= 0x200_0000,
        -0x200_0000 <= y <= 0x200_0000,
        -256 <= mx <= 256,
        -256 <= my <= 256,
    ensures
        hr_cross(x + mx, y + my, x2 as int, y2 as int, x2 - x1, y2 - y1)
            == hr_cross(x as int, y as int, x2 as int, y2 as int, x2 - x1, y2 - y1)
                + mx * (y2 - y1) - my * (x2 - x1),
        iabs(hr_cross(x + mx, y + my, x2 as int, y2 as int, x2 - x1, y2 - y1)) <= 0x40_0000_0000_0000,
        fits_i64(x + mx),
        fits_i64(y + my),
{
    let a = x + 128 - x2;
    let b = y + 128 - y2;
    let dx0 = x2 - x1;
    let dy0 = y2 - y1;
    assert((a + mx) * dy0 - (b + my) * dx0 == a * dy0 - b * dx0 + mx * dy0 - my * dx0)
        by (nonlinear_arith);
    lemma_mul_bound(a + mx, dy0, 0x400_0000, 0x200_0000);
    lemma_mul_bound(b + my, dx0, 0x400_0000, 0x200_0000);
}

} // verus!
