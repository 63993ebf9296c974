//! Parts of the anti-aliased outline renderer

use vstd::prelude::*;
use crate::fits_i64;
use crate::base::{RenderingBase, clip_run, clip_fits, solid_hspan_done, solid_vspan_done};
use crate::color::Rgba8;
use crate::{Color, Pixel, RenderOutline, spans_drawable, covers_queryable, POLY_SUBPIXEL_SCALE};

verus! {

/// Ellipse Interpolator
///
/// Walks the first quadrant of the ellipse `x^2/rx^2 + y^2/ry^2 = 1` from
/// its top, one pixel step at a time
#[derive(Debug)]
pub struct EllipseInterpolator {
    pub rx2: i64,
    pub ry2: i64,
    pub two_rx2: i64,
    pub two_ry2: i64,
    pub dx: i64,
    pub dy: i64,
    pub inc_x: i64,
    pub inc_y: i64,
    pub cur_f: i64,
}

/// The value of the ellipse function `ry^2 x^2 + rx^2 y^2 - rx^2 ry^2` at
/// the point `sx` steps right of the top and `sy` steps down from it
pub open spec fn ellipse_f(rx: int, ry: int, sx: int, sy: int) -> int {
    ry * ry * sx * sx + rx * rx * (sy - ry) * (sy - ry) - rx * rx * ry * ry
}

impl EllipseInterpolator {
    /// The state after `sx` steps right and `sy` steps down (each counted
    /// from the top of the ellipse), the last one by (`dx`,`dy`)
    pub open spec fn at(rx: int, ry: int, sx: int, sy: int, dx: int, dy: int) -> Self {
        EllipseInterpolator {
            rx2: (rx * rx) as i64,
            ry2: (ry * ry) as i64,
            two_rx2: (2 * rx * rx) as i64,
            two_ry2: (2 * ry * ry) as i64,
            dx: dx as i64,
            dy: dy as i64,
            inc_x: (2 * ry * ry * sx) as i64,
            inc_y: (2 * rx * rx * (sy - ry)) as i64,
            cur_f: ellipse_f(rx, ry, sx, sy) as i64,
        }
    }

    /// Create new Ellipse Interpolator with axes lenghts `rx` and `ry`
    pub fn new(rx: i64, ry: i64) -> (s: Self)
        requires
            fits_i64(2 * rx * rx),
            fits_i64(2 * ry * ry),
            fits_i64(-ry * (2 * rx * rx)),
        ensures
            s == Self::at(rx as int, ry as int, 0, 0, 0, 0),
    {
        proof {
            assert(0 <= rx * rx <= 2 * rx * rx) by (nonlinear_arith);
            assert(0 <= ry * ry <= 2 * ry * ry) by (nonlinear_arith);
            assert(fits_i64(-ry as int)) by (nonlinear_arith)
                requires fits_i64(2 * ry * ry);
            assert(ellipse_f(rx as int, ry as int, 0, 0) == 0) by (nonlinear_arith);
            assert(2 * rx * rx * (0 - ry) == -ry * (2 * rx * rx)) by (nonlinear_arith);
            assert(2 * ry * ry * 0 == 0);
            assert((rx * rx) * 2 == 2 * rx * rx) by (nonlinear_arith);
            assert((ry * ry) * 2 == 2 * ry * ry) by (nonlinear_arith);
        }
        let rx2: i64 = rx * rx;
        let ry2: i64 = ry * ry;
        let two_rx2: i64 = rx2 * 2;
        let two_ry2: i64 = ry2 * 2;
        let dx: i64 = 0;
        let dy: i64 = 0;
        let inc_x: i64 = 0;
        let inc_y: i64 = -ry * two_rx2;
        let cur_f: i64 = 0;

        Self { rx2, ry2, two_rx2, two_ry2, dx, dy, inc_x, inc_y, cur_f }
    }

    /// The function after a step right
    pub open spec fn f_x(&self) -> int {
        self.cur_f + self.inc_x + self.ry2
    }

    /// The function after a step down
    pub open spec fn f_y(&self) -> int {
        self.cur_f + self.inc_y + self.rx2
    }

    /// The function after a diagonal step
    pub open spec fn f_xy(&self) -> int {
        self.cur_f + self.inc_x + self.ry2 + self.inc_y + self.rx2
    }

    /// Each sum of one step stays in range
    pub open spec fn steppable(&self) -> bool {
        &&& fits_i64(self.cur_f + self.inc_x)
        &&& fits_i64(self.cur_f + self.inc_y)
        &&& i64::MIN < self.f_x() <= i64::MAX
        &&& i64::MIN < self.f_y() <= i64::MAX
        &&& fits_i64(self.f_x() + self.inc_y)
        &&& i64::MIN < self.f_xy() <= i64::MAX
        &&& fits_i64(self.inc_x + self.two_ry2)
        &&& fits_i64(self.inc_y + self.two_rx2)
    }

    /// The move that `inc` makes: the diagonal one where its function is
    /// strictly smallest in magnitude, else right unless down is strictly
    /// smaller
    pub open spec fn next_move(&self) -> (int, int) {
        let mx = crate::fixed::iabs(self.f_x());
        let my = crate::fixed::iabs(self.f_y());
        let mxy = crate::fixed::iabs(self.f_xy());
        let min_m = if mx > my { my } else { mx };
        if min_m > mxy { (1, 1) } else if mx > my { (0, 1) } else { (1, 0) }
    }

    /// Increment the Interpolator
    pub fn inc(&mut self)
        requires
            old(self).steppable(),
        ensures
            (final(self).dx, final(self).dy) == (old(self).next_move().0 as i64,
                old(self).next_move().1 as i64),
            final(self).rx2 == old(self).rx2,
            final(self).ry2 == old(self).ry2,
            final(self).two_rx2 == old(self).two_rx2,
            final(self).two_ry2 == old(self).two_ry2,
            final(self).inc_x == old(self).inc_x + final(self).dx * old(self).two_ry2,
            final(self).inc_y == old(self).inc_y + final(self).dy * old(self).two_rx2,
            final(self).cur_f == (if final(self).dx == 1 && final(self).dy == 1 { old(self).f_xy() }
                else if final(self).dx == 1 { old(self).f_x() } else { old(self).f_y() }),
    {
        let mut mx: i64 = self.cur_f + self.inc_x + self.ry2;
        let fx: i64 = mx;
        if mx < 0 {
            mx = -mx;
        }

        let mut my: i64 = self.cur_f + self.inc_y + self.rx2;
        let fy: i64 = my;
        if my < 0 {
            my = -my;
        }

        let mut mxy: i64 = self.cur_f + self.inc_x + self.ry2 + self.inc_y + self.rx2;
        let fxy: i64 = mxy;
        if mxy < 0 {
            mxy = -mxy;
        }

        let mut min_m: i64 = mx;

        let flag = if min_m > my {
            min_m = my;
            false
        } else {
            true
        };

        self.dx = 0;
        self.dy = 0;
        if min_m > mxy {
            self.inc_x += self.two_ry2;
            self.inc_y += self.two_rx2;
            self.cur_f = fxy;
            self.dx = 1;
            self.dy = 1;
            return;
        }

        if flag {
            self.inc_x += self.two_ry2;
            self.cur_f = fx;
            self.dx = 1;
            return;
        }

        self.inc_y += self.two_rx2;
        self.cur_f = fy;
        self.dy = 1;
    }
}

/// Every step of the interpolator keeps its function exact: from the state
/// at a point of the ellipse's quadrant, a step lands on the state at the
/// point moved by that step
pub proof fn lemma_ellipse_step(rx: int, ry: int, sx: int, sy: int, dx: int, dy: int,
                                e: EllipseInterpolator, next: EllipseInterpolator)
    requires
        e == EllipseInterpolator::at(rx, ry, sx, sy, dx, dy),
        fits_i64(2 * rx * rx), fits_i64(2 * ry * ry),
        fits_i64(2 * ry * ry * sx), fits_i64(2 * rx * rx * (sy - ry)),
        fits_i64(ellipse_f(rx, ry, sx, sy)),
        e.steppable(),
        next.dx == e.next_move().0,
        next.dy == e.next_move().1,
        next.rx2 == e.rx2 && next.ry2 == e.ry2,
        next.two_rx2 == e.two_rx2 && next.two_ry2 == e.two_ry2,
        next.inc_x == e.inc_x + next.dx * e.two_ry2,
        next.inc_y == e.inc_y + next.dy * e.two_rx2,
        next.cur_f == (if next.dx == 1 && next.dy == 1 { e.f_xy() }
            else if next.dx == 1 { e.f_x() } else { e.f_y() }),
    ensures
        next == EllipseInterpolator::at(rx, ry, sx + next.dx, sy + next.dy, next.dx as int,
            next.dy as int),
{
    assert(0 <= rx * rx <= 2 * rx * rx) by (nonlinear_arith);
    assert(0 <= ry * ry <= 2 * ry * ry) by (nonlinear_arith);
    let a = next.dx as int;
    let b = next.dy as int;
    assert(ry * ry * (sx + a) * (sx + a) == ry * ry * sx * sx + a * (2 * ry * ry * sx + ry * ry)) by {
        if a == 0 {
        } else {
            assert(ry * ry * (sx + 1) * (sx + 1) == ry * ry * sx * sx + (2 * ry * ry * sx + ry * ry))
                by (nonlinear_arith);
        }
    }
    assert(rx * rx * (sy + b - ry) * (sy + b - ry)
        == rx * rx * (sy - ry) * (sy - ry) + b * (2 * rx * rx * (sy - ry) + rx * rx)) by {
        if b == 0 {
        } else {
            assert(rx * rx * (sy + 1 - ry) * (sy + 1 - ry)
                == rx * rx * (sy - ry) * (sy - ry) + (2 * rx * rx * (sy - ry) + rx * rx))
                by (nonlinear_arith);
        }
    }
    assert(2 * ry * ry * (sx + a) == 2 * ry * ry * sx + a * (2 * ry * ry)) by (nonlinear_arith);
    assert(2 * rx * rx * (sy + b - ry) == 2 * rx * rx * (sy - ry) + b * (2 * rx * rx))
        by (nonlinear_arith);
}

} // verus!

verus! {

/// Outline Renderer with Anti-Aliasing
///
/// Draws in one color; the coverage of a pixel at subpixel distance `d`
/// from the line center is entry `d + 512` of the line profile
#[derive(Debug)]
pub struct RendererOutlineAA<'a, T> {
    pub ren: &'a mut RenderingBase<T>,
    pub color: Rgba8,
    /// Coverage by distance from the line center, offset by two pixels
    pub profile: Vec<u8>,
    /// Half the width of the line core, in subpixels
    pub subpixel_width: i64,
}

/// A span of `len` pixels from (`x`, `y`) along a row, or along a column if
/// `vertical`, can be drawn into `ren` from `ncovers` coverages
pub open spec fn outline_span_ok<T: Pixel>(ren: &RenderingBase<T>, x: int, y: int, len: int,
                                           ncovers: int, vertical: bool) -> bool {
    let (lo, across, run_max, across_max) = if vertical {
        (y, x, ren.pixf.height_spec() - 1, ren.pixf.width_spec() as int)
    } else {
        (x, y, ren.pixf.width_spec() - 1, ren.pixf.height_spec() as int)
    };
    let (draw, start, n, off) = clip_run(lo, len, run_max);
    &&& ren.wf()
    &&& clip_fits(lo, len)
    &&& (0 <= across < across_max && draw ==> 0 <= n && off + n <= ncovers)
}

impl<'a, T: Pixel> RendererOutlineAA<'a, T> {
    /// Create an Outline Renderer drawing in black into `ren`, with the line
    /// profile `profile` for a line core of `subpixel_width` subpixels
    pub fn with_profile(ren: &'a mut RenderingBase<T>, profile: Vec<u8>, subpixel_width: i64) -> (s: Self)
        ensures
            *s.ren == *old(ren),
            *final(s.ren) == *final(ren),
            s.color == (Rgba8 { r: 0, g: 0, b: 0, a: 255 }),
            s.profile@ == profile@,
            s.subpixel_width == subpixel_width,
    {
        Self { ren, color: Rgba8::black(), profile, subpixel_width }
    }

    /// Half the width of the line core, in subpixels
    pub fn subpixel_width(&self) -> (r: i64)
        ensures
            r == self.subpixel_width,
    {
        self.subpixel_width
    }

    /// Set the current color
    pub fn color<C: Color>(&mut self, color: C)
        ensures
            (final(self).color.r, final(self).color.g, final(self).color.b, final(self).color.a)
                == color.rgba(),
            *final(self).ren == *old(self).ren,
            final(self).profile@ == old(self).profile@,
            final(self).subpixel_width == old(self).subpixel_width,
    {
        self.color = Rgba8::from_trait(color);
    }

    /// Any span near the line can be drawn while the image is well formed
    pub proof fn lemma_spans_drawable(&self)
        requires
            self.ren.wf(),
        ensures
            spans_drawable(self, true),
            spans_drawable(self, false),
    {
    }
}

impl<T: Pixel> RenderOutline for RendererOutlineAA<'_, T> {
    open spec fn cover_spec(&self, d: i64) -> u64 {
        self.profile@[d + 512] as u64
    }

    open spec fn cover_ok(&self, d: i64) -> bool {
        &&& 0 <= d + 512 < self.profile@.len()
        &&& d + 512 <= i64::MAX
    }

    open spec fn span_ok(&self, x: i64, y: i64, len: i64, ncovers: int, vertical: bool) -> bool {
        outline_span_ok(&*self.ren, x as int, y as int, len as int, ncovers, vertical)
    }

    open spec fn span_drawn(&self, after: &Self, x: i64, y: i64, len: i64, covers: Seq<u64>,
                            vertical: bool) -> bool {
        &&& after.color == self.color
        &&& after.profile@ == self.profile@
        &&& after.subpixel_width == self.subpixel_width
        &&& if vertical {
            solid_vspan_done(&*self.ren, &*after.ren, x as int, y as int, len as int, self.color, covers)
        } else {
            solid_hspan_done(&*self.ren, &*after.ren, x as int, y as int, len as int, self.color, covers)
        }
    }

    /// Coverage of a pixel at subpixel distance `d` from the line center
    fn cover(&self, d: i64) -> (r: u64) {
        let index: i64 = d + 2 * POLY_SUBPIXEL_SCALE;
        let n: usize = self.profile.len();
        assert(0 <= index < n);
        let i: usize = index as usize;
        assert(i == d + 512);
        self.profile[i] as u64
    }

    fn blend_solid_hspan(&mut self, x: i64, y: i64, len: i64, covers: &[u64]) {
        let color = self.color;
        self.ren.blend_solid_hspan(x, y, len, color, covers);
    }

    fn blend_solid_vspan(&mut self, x: i64, y: i64, len: i64, covers: &[u64]) {
        let color = self.color;
        self.ren.blend_solid_vspan(x, y, len, color, covers);
    }
}

} // verus!

verus! {

use crate::conv_stroke::LineJoin;
use crate::line_interp::{LineParameters, quadrant_of};

/// One drawing operation of the outline renderer
#[derive(Debug, Copy, Clone)]
pub enum OutlineOp {
    /// A line with neither end cut
    Line0(LineParameters),
    /// A line with its start cut by the bisectrix toward the point
    Line1(LineParameters, i64, i64),
    /// A line with its end cut by the bisectrix toward the point
    Line2(LineParameters, i64, i64),
    /// A line with both ends cut
    Line3(LineParameters, i64, i64, i64, i64),
    /// A half disc of a round cap: on the start side of the line if the flag
    /// is set, else on the end side; its center, and a point giving the side
    Semidot(bool, i64, i64, i64, i64),
    /// A pie slice of a round join: its center and the two points bounding it
    Pie(i64, i64, i64, i64, i64, i64),
}

/// Largest magnitude of a vertex coordinate of an outline: perpendicular
/// points built from three coordinates stay in the 64-bit range
pub const VERTEX_LIMIT: i64 = 0x2000_0000_0000_0000;

/// Vertices whose coordinates stay within `VERTEX_LIMIT`
pub open spec fn vertices_ok(vs: Seq<(i64, i64)>) -> bool {
    forall|i: int| 0 <= i < vs.len() ==> {
        &&& -VERTEX_LIMIT <= (#[trigger] vs[i]).0 <= VERTEX_LIMIT
        &&& -VERTEX_LIMIT <= vs[i].1 <= VERTEX_LIMIT
    }
}

/// Whether every vertex of `vs` is within `VERTEX_LIMIT`
pub fn vertices_in_range(vs: &[(i64, i64)]) -> (r: bool)
    ensures
        r == vertices_ok(vs@),
{
    let mut i: usize = 0;
    while i < vs.len()
        invariant
            i <= vs@.len(),
            forall|j: int| 0 <= j < i ==> {
                &&& -VERTEX_LIMIT <= (#[trigger] vs@[j]).0 <= VERTEX_LIMIT
                &&& -VERTEX_LIMIT <= vs@[j].1 <= VERTEX_LIMIT
            },
        decreases vs.len() - i,
    {
        let v = vs[i];
        if v.0 < -VERTEX_LIMIT || v.0 > VERTEX_LIMIT || v.1 < -VERTEX_LIMIT || v.1 > VERTEX_LIMIT {
            assert(!vertices_ok(vs@)) by {
                assert(vs@[i as int] == v);
            }
            return false;
        }
        i += 1;
    }
    true
}

/// Segment `j` of the outline: from vertex `j` to the next one, wrapping
/// around, of length `lens[j]`
pub open spec fn seg(vs: Seq<(i64, i64)>, lens: Seq<i64>, j: int) -> LineParameters {
    let a = vs[j];
    let b = vs[(j + 1) % (vs.len() as int)];
    LineParameters::new_spec(a.0, a.1, b.0, b.1, lens[j])
}

/// The point square to line `l` at its start, as far from it as its end
pub open spec fn start_perp(l: LineParameters) -> (i64, i64) {
    ((l.x1 + (l.y2 - l.y1)) as i64, (l.y1 - (l.x2 - l.x1)) as i64)
}

/// The point square to line `l` at its end, as far from it as its start
pub open spec fn end_perp(l: LineParameters) -> (i64, i64) {
    ((l.x2 + (l.y2 - l.y1)) as i64, (l.y2 - (l.x2 - l.x1)) as i64)
}

/// The diagonal quadrant of line `l`
pub open spec fn quad(l: LineParameters) -> u8 {
    quadrant_of(l.octant as int)
}

/// A line with both ends cut square
pub open spec fn square_line(l: LineParameters) -> OutlineOp {
    OutlineOp::Line3(l, start_perp(l).0, start_perp(l).1, end_perp(l).0, end_perp(l).1)
}

/// The round cap at the start of line `l`
pub open spec fn start_cap(l: LineParameters) -> OutlineOp {
    OutlineOp::Semidot(true, l.x1, l.y1, start_perp(l).0, start_perp(l).1)
}

/// The round cap at the end of line `l`
pub open spec fn end_cap(l: LineParameters) -> OutlineOp {
    OutlineOp::Semidot(false, l.x2, l.y2, end_perp(l).0, end_perp(l).1)
}

/// The round join between `l1` and `l2` at the end of `l1`
pub open spec fn join_pie(l1: LineParameters, l2: LineParameters) -> OutlineOp {
    OutlineOp::Pie(l1.x2, l1.y2, end_perp(l1).0, end_perp(l1).1,
        (l1.x2 + (l2.y2 - l2.y1)) as i64, (l1.y2 - (l2.x2 - l2.x1)) as i64)
}

/// The operations for an outline of two vertices
pub open spec fn two_ops(vs: Seq<(i64, i64)>, lens: Seq<i64>, round_cap: bool) -> Seq<OutlineOp> {
    let l = seg(vs, lens, 0);
    (if round_cap { seq![start_cap(l)] } else { seq![] })
        + seq![square_line(l)]
        + (if round_cap { seq![end_cap(l)] } else { seq![] })
}

/// The operations for an outline of three vertices
pub open spec fn three_ops(vs: Seq<(i64, i64)>, lens: Seq<i64>, bis: Seq<(i64, i64)>, round_cap: bool,
                           join: LineJoin) -> Seq<OutlineOp> {
    let l1 = seg(vs, lens, 0);
    let l2 = seg(vs, lens, 1);
    let b = bis[1];
    (if round_cap { seq![start_cap(l1)] } else { seq![] })
        + (if join == LineJoin::Round {
            seq![square_line(l1), join_pie(l1, l2), square_line(l2)]
        } else {
            seq![OutlineOp::Line3(l1, start_perp(l1).0, start_perp(l1).1, b.0, b.1),
                 OutlineOp::Line3(l2, b.0, b.1, end_perp(l2).0, end_perp(l2).1)]
        })
        + (if round_cap { seq![end_cap(l2)] } else { seq![] })
}

/// Which ends of the current line a join leaves uncut (bit 0 its start,
/// bit 1 its end), and the bisectrices at its start and end
pub type JoinState = (u8, i64, i64, i64, i64);

/// The flags after moving to the next line: what was the end becomes the
/// start, and the end is left uncut where the two lines share a quadrant
pub open spec fn shift_flags(flags: u8, l1: LineParameters, l2: LineParameters) -> u8 {
    (flags >> 1u8) | (if quad(l1) == quad(l2) { 2u8 } else { 0u8 })
}

/// The operations that draw line `i` (followed by line `i + 1`), from state
/// `st`
pub open spec fn draw_line_ops(vs: Seq<(i64, i64)>, lens: Seq<i64>, join: LineJoin, i: int,
                               st: JoinState) -> Seq<OutlineOp> {
    let curr = seg(vs, lens, i);
    let next = seg(vs, lens, i + 1);
    let (flags, xb1, yb1, xb2, yb2) = if join == LineJoin::Round {
        (st.0, start_perp(curr).0, start_perp(curr).1, end_perp(curr).0, end_perp(curr).1)
    } else {
        st
    };
    let line = if flags == 0 {
        OutlineOp::Line3(curr, xb1, yb1, xb2, yb2)
    } else if flags == 1 {
        OutlineOp::Line2(curr, xb2, yb2)
    } else if flags == 2 {
        OutlineOp::Line1(curr, xb1, yb1)
    } else {
        OutlineOp::Line0(curr)
    };
    seq![line] + (if join == LineJoin::Round && (flags & 2u8) == 0 { seq![join_pie(curr, next)] } else { seq![] })
}

/// The state after drawing line `i`, ready for line `i + 1`
pub open spec fn draw_line_state(vs: Seq<(i64, i64)>, lens: Seq<i64>, bis: Seq<(i64, i64)>, join: LineJoin,
                                 i: int, st: JoinState) -> JoinState {
    let curr = seg(vs, lens, i);
    let (flags, xb1, yb1, xb2, yb2) = if join == LineJoin::Round {
        (st.0, start_perp(curr).0, start_perp(curr).1, end_perp(curr).0, end_perp(curr).1)
    } else {
        st
    };
    let c2 = seg(vs, lens, i + 1);
    let n2 = seg(vs, lens, i + 2);
    let b = bis[i + 2];
    if join == LineJoin::Miter {
        let f = shift_flags(flags, c2, n2);
        if (f & 2u8) == 0 { (f, xb2, yb2, b.0, b.1) } else { (f, xb2, yb2, xb2, yb2) }
    } else if join == LineJoin::Round {
        (shift_flags(flags, c2, n2), xb2, yb2, xb2, yb2)
    } else if join == LineJoin::MiterAccurate {
        (0u8, xb2, yb2, b.0, b.1)
    } else {
        (3u8, xb2, yb2, xb2, yb2)
    }
}

/// The lines `i .. end` drawn after the operations `acc`, from state `st`:
/// the operations and the state after them
pub open spec fn draw_run(vs: Seq<(i64, i64)>, lens: Seq<i64>, bis: Seq<(i64, i64)>, join: LineJoin,
                          i: int, end: int, st: JoinState, acc: Seq<OutlineOp>)
                          -> (Seq<OutlineOp>, JoinState)
    decreases end - i,
{
    if i >= end {
        (acc, st)
    } else {
        draw_run(vs, lens, bis, join, i + 1, end, draw_line_state(vs, lens, bis, join, i, st),
            acc + draw_line_ops(vs, lens, join, i, st))
    }
}

/// The flags of the first line drawn in the loop
pub open spec fn first_flags(vs: Seq<(i64, i64)>, lens: Seq<i64>, join: LineJoin) -> u8 {
    let prev = seg(vs, lens, 0);
    let curr = seg(vs, lens, 1);
    let next = seg(vs, lens, 2);
    if join == LineJoin::MiterAccurate {
        0u8
    } else if join == LineJoin::Miter || join == LineJoin::Round {
        (if quad(prev) == quad(curr) { 1u8 } else { 0u8 }) | (if quad(curr) == quad(next) { 2u8 } else { 0u8 })
    } else {
        3u8
    }
}

/// The operations before the loop of an outline of four or more vertices,
/// and the state the loop starts from
pub open spec fn many_start(vs: Seq<(i64, i64)>, lens: Seq<i64>, bis: Seq<(i64, i64)>, round_cap: bool,
                            join: LineJoin) -> (Seq<OutlineOp>, JoinState) {
    let prev = seg(vs, lens, 0);
    let curr = seg(vs, lens, 1);
    let flags = first_flags(vs, lens, join);
    let cap = if round_cap { seq![start_cap(prev)] } else { seq![] };
    let (first, xb1, yb1) = if (flags & 1u8) == 0 {
        if join == LineJoin::Round {
            (seq![square_line(prev),
                  OutlineOp::Pie(prev.x2, prev.y2, end_perp(prev).0, end_perp(prev).1,
                      (curr.x1 + (curr.y2 - curr.y1)) as i64, (curr.y1 + (curr.x2 - curr.x1)) as i64)],
             0i64, 0i64)
        } else {
            (seq![OutlineOp::Line3(prev, start_perp(prev).0, start_perp(prev).1, bis[1].0, bis[1].1)],
             bis[1].0, bis[1].1)
        }
    } else {
        (seq![OutlineOp::Line1(prev, start_perp(prev).0, start_perp(prev).1)], 0i64, 0i64)
    };
    let (xb2, yb2) = if (flags & 2u8) == 0 && join != LineJoin::Round { bis[2] } else { (0i64, 0i64) };
    (cap + first, (flags, xb1, yb1, xb2, yb2))
}

/// The operations that end an outline of `n` (four or more) vertices, from
/// the state after the loop
pub open spec fn many_end(vs: Seq<(i64, i64)>, lens: Seq<i64>, round_cap: bool, join: LineJoin,
                          st: JoinState) -> Seq<OutlineOp> {
    let curr = seg(vs, lens, vs.len() - 2);
    (if (st.0 & 1u8) == 0 {
        if join == LineJoin::Round {
            seq![square_line(curr)]
        } else {
            seq![OutlineOp::Line3(curr, st.1, st.2, end_perp(curr).0, end_perp(curr).1)]
        }
    } else {
        seq![OutlineOp::Line2(curr, end_perp(curr).0, end_perp(curr).1)]
    }) + (if round_cap { seq![end_cap(curr)] } else { seq![] })
}

/// The operations that draw an open outline through the vertices `vs`,
/// with the segment lengths `lens` and the bisectrices `bis` at the joins
pub open spec fn outline_ops_spec(vs: Seq<(i64, i64)>, lens: Seq<i64>, bis: Seq<(i64, i64)>, round_cap: bool,
                                  join: LineJoin) -> Seq<OutlineOp> {
    let n = vs.len() as int;
    if n <= 1 {
        seq![]
    } else if n == 2 {
        two_ops(vs, lens, round_cap)
    } else if n == 3 {
        three_ops(vs, lens, bis, round_cap, join)
    } else {
        let (start, st) = many_start(vs, lens, bis, round_cap, join);
        let (ops, st2) = draw_run(vs, lens, bis, join, 1, n - 2, st, start);
        ops + many_end(vs, lens, round_cap, join, st2)
    }
}

} // verus!

verus! {

/// End points of a line within `VERTEX_LIMIT`
pub open spec fn line_ok(l: LineParameters) -> bool {
    &&& -VERTEX_LIMIT <= l.x1 <= VERTEX_LIMIT && -VERTEX_LIMIT <= l.y1 <= VERTEX_LIMIT
    &&& -VERTEX_LIMIT <= l.x2 <= VERTEX_LIMIT && -VERTEX_LIMIT <= l.y2 <= VERTEX_LIMIT
    &&& l.octant < 8
}

/// Segment `j` of the outline
fn segment(vs: &[(i64, i64)], lens: &[i64], j: usize) -> (l: LineParameters)
    requires
        j < vs@.len(),
        lens@.len() == vs@.len(),
        vertices_ok(vs@),
    ensures
        l == seg(vs@, lens@, j as int),
        line_ok(l),
{
    let n = vs.len();
    let k: usize = if j + 1 == n { 0 } else { j + 1 };
    proof {
        if j + 1 == n {
            vstd::arithmetic::div_mod::lemma_mod_self_0(n as int);
        } else {
            vstd::arithmetic::div_mod::lemma_small_mod((j + 1) as nat, n as nat);
        }
    }
    assert(k as int == (j + 1) % (n as int));
    let a = vs[j];
    let b = vs[k];
    LineParameters::new(a.0, a.1, b.0, b.1, lens[j])
}

/// The point square to `l` at its start
fn start_point(l: &LineParameters) -> (r: (i64, i64))
    requires
        line_ok(*l),
    ensures
        r == start_perp(*l),
{
    (l.x1 + (l.y2 - l.y1), l.y1 - (l.x2 - l.x1))
}

/// The point square to `l` at its end
fn end_point(l: &LineParameters) -> (r: (i64, i64))
    requires
        line_ok(*l),
    ensures
        r == end_perp(*l),
{
    (l.x2 + (l.y2 - l.y1), l.y2 - (l.x2 - l.x1))
}

/// The operations that draw an open outline through `vertices`
///
/// `lens[j]` is the length of the segment from vertex `j` to the next one
/// (the last wrapping to the first), and `bisectrices[j]` the bisectrix
/// point of the join at vertex `j`, between segments `j - 1` and `j`. Two
/// vertices give one line, three give two joined lines, more give the
/// lines in turn, each cut at its ends as the join style asks; round caps
/// add a half disc at each end.
pub fn outline_ops(vertices: &[(i64, i64)], lens: &[i64], bisectrices: &[(i64, i64)], round_cap: bool,
                   join: LineJoin) -> (ops: Vec<OutlineOp>)
    requires
        lens@.len() == vertices@.len(),
        bisectrices@.len() == vertices@.len(),
        vertices_ok(vertices@),
    ensures
        ops@ == outline_ops_spec(vertices@, lens@, bisectrices@, round_cap, join),
{
    let n = vertices.len();
    let mut ops: Vec<OutlineOp> = Vec::new();
    if n <= 1 {
        return ops;
    }
    if n == 2 {
        let l = segment(vertices, lens, 0);
        let s = start_point(&l);
        let e = end_point(&l);
        if round_cap {
            ops.push(OutlineOp::Semidot(true, l.x1, l.y1, s.0, s.1));
        }
        ops.push(OutlineOp::Line3(l, s.0, s.1, e.0, e.1));
        if round_cap {
            ops.push(OutlineOp::Semidot(false, l.x2, l.y2, e.0, e.1));
        }
        assert(ops@ =~= two_ops(vertices@, lens@, round_cap));
        return ops;
    }
    if n == 3 {
        let l1 = segment(vertices, lens, 0);
        let l2 = segment(vertices, lens, 1);
        let s1 = start_point(&l1);
        let e1 = end_point(&l1);
        let s2 = start_point(&l2);
        let e2 = end_point(&l2);
        if round_cap {
            ops.push(OutlineOp::Semidot(true, l1.x1, l1.y1, s1.0, s1.1));
        }
        match join {
            LineJoin::Round => {
                ops.push(OutlineOp::Line3(l1, s1.0, s1.1, e1.0, e1.1));
                ops.push(OutlineOp::Pie(l1.x2, l1.y2, e1.0, e1.1, l1.x2 + (l2.y2 - l2.y1), l1.y2 - (l2.x2 - l2.x1)));
                ops.push(OutlineOp::Line3(l2, s2.0, s2.1, e2.0, e2.1));
            },
            _ => {
                let b = bisectrices[1];
                ops.push(OutlineOp::Line3(l1, s1.0, s1.1, b.0, b.1));
                ops.push(OutlineOp::Line3(l2, b.0, b.1, e2.0, e2.1));
            },
        }
        if round_cap {
            ops.push(OutlineOp::Semidot(false, l2.x2, l2.y2, e2.0, e2.1));
        }
        assert(ops@ =~= three_ops(vertices@, lens@, bisectrices@, round_cap, join));
        return ops;
    }
    let prev = segment(vertices, lens, 0);
    let mut curr = segment(vertices, lens, 1);
    let mut next = segment(vertices, lens, 2);
    let mut flags: u8 = match join {
        LineJoin::MiterAccurate => 0,
        LineJoin::Miter | LineJoin::Round => {
            let a: u8 = if prev.diagonal_quadrant() == curr.diagonal_quadrant() { 1 } else { 0 };
            let b: u8 = if curr.diagonal_quadrant() == next.diagonal_quadrant() { 2 } else { 0 };
            a | b
        },
        _ => 3,
    };
    assert(flags == first_flags(vertices@, lens@, join));
    let ps = start_point(&prev);
    let pe = end_point(&prev);
    if round_cap {
        ops.push(OutlineOp::Semidot(true, prev.x1, prev.y1, ps.0, ps.1));
    }
    let mut xb1: i64 = 0;
    let mut yb1: i64 = 0;
    let mut xb2: i64 = 0;
    let mut yb2: i64 = 0;
    if (flags & 1) == 0 {
        match join {
            LineJoin::Round => {
                ops.push(OutlineOp::Line3(prev, ps.0, ps.1, pe.0, pe.1));
                ops.push(OutlineOp::Pie(prev.x2, prev.y2, pe.0, pe.1, curr.x1 + (curr.y2 - curr.y1),
                    curr.y1 + (curr.x2 - curr.x1)));
            },
            _ => {
                let b = bisectrices[1];
                ops.push(OutlineOp::Line3(prev, ps.0, ps.1, b.0, b.1));
                xb1 = b.0;
                yb1 = b.1;
            },
        }
    } else {
        ops.push(OutlineOp::Line1(prev, ps.0, ps.1));
    }
    let is_round = match join { LineJoin::Round => true, _ => false };
    if (flags & 2) == 0 && !is_round {
        let b = bisectrices[2];
        xb2 = b.0;
        yb2 = b.1;
    }
    let ghost start_ops = ops@;
    let ghost st0: JoinState = (flags, xb1, yb1, xb2, yb2);
    assert((start_ops, st0) == many_start(vertices@, lens@, bisectrices@, round_cap, join));
    let mut i: usize = 1;
    while i < n - 2
        invariant
            1 <= i <= n - 2,
            n == vertices@.len(),
            n >= 4,
            lens@.len() == n,
            bisectrices@.len() == n,
            vertices_ok(vertices@),
            is_round == (join == LineJoin::Round),
            curr == seg(vertices@, lens@, i as int),
            next == seg(vertices@, lens@, i + 1),
            line_ok(curr),
            line_ok(next),
            draw_run(vertices@, lens@, bisectrices@, join, i as int, n - 2, (flags, xb1, yb1, xb2, yb2), ops@)
                == draw_run(vertices@, lens@, bisectrices@, join, 1, n - 2, st0, start_ops),
        decreases n - i,
    {
        let ghost st = (flags, xb1, yb1, xb2, yb2);
        let ghost pre = ops@;
        if is_round {
            let s = start_point(&curr);
            let e = end_point(&curr);
            xb1 = s.0;
            yb1 = s.1;
            xb2 = e.0;
            yb2 = e.1;
        }
        let line = if flags == 0 {
            OutlineOp::Line3(curr, xb1, yb1, xb2, yb2)
        } else if flags == 1 {
            OutlineOp::Line2(curr, xb2, yb2)
        } else if flags == 2 {
            OutlineOp::Line1(curr, xb1, yb1)
        } else {
            OutlineOp::Line0(curr)
        };
        ops.push(line);
        if is_round && (flags & 2) == 0 {
            ops.push(OutlineOp::Pie(curr.x2, curr.y2, curr.x2 + (curr.y2 - curr.y1), curr.y2 - (curr.x2 - curr.x1),
                curr.x2 + (next.y2 - next.y1), curr.y2 - (next.x2 - next.x1)));
        }
        assert(ops@ =~= pre + draw_line_ops(vertices@, lens@, join, i as int, st));
        let nn = segment(vertices, lens, i + 2);
        curr = next;
        next = nn;
        xb1 = xb2;
        yb1 = yb2;
        match join {
            LineJoin::Miter => {
                let q: u8 = if curr.diagonal_quadrant() == next.diagonal_quadrant() { 2 } else { 0 };
                flags = (flags >> 1u8) | q;
                if (flags & 2) == 0 {
                    let b = bisectrices[i + 2];
                    xb2 = b.0;
                    yb2 = b.1;
                }
            },
            LineJoin::Round => {
                let q: u8 = if curr.diagonal_quadrant() == next.diagonal_quadrant() { 2 } else { 0 };
                flags = (flags >> 1u8) | q;
            },
            LineJoin::MiterAccurate => {
                flags = 0;
                let b = bisectrices[i + 2];
                xb2 = b.0;
                yb2 = b.1;
            },
            _ => {
                flags = 3;
            },
        }
        assert((flags, xb1, yb1, xb2, yb2) == draw_line_state(vertices@, lens@, bisectrices@, join, i as int, st));
        i += 1;
    }
    let ghost st2: JoinState = (flags, xb1, yb1, xb2, yb2);
    let ghost mid = ops@;
    let cs = start_point(&curr);
    let ce = end_point(&curr);
    if (flags & 1) == 0 {
        if is_round {
            ops.push(OutlineOp::Line3(curr, cs.0, cs.1, ce.0, ce.1));
        } else {
            ops.push(OutlineOp::Line3(curr, xb1, yb1, ce.0, ce.1));
        }
    } else {
        ops.push(OutlineOp::Line2(curr, ce.0, ce.1));
    }
    if round_cap {
        ops.push(OutlineOp::Semidot(false, curr.x2, curr.y2, ce.0, ce.1));
    }
    assert(ops@ =~= mid + many_end(vertices@, lens@, round_cap, join, st2));
    ops
}

} // verus!

verus! {

/// Add the vertex (`x`, `y`) to an outline, its current last segment being
/// `last_len` long: a last segment shorter than one and a half pixels is
/// dropped first by removing its end vertex
pub fn line_to(vertices: &mut Vec<(i64, i64)>, x: i64, y: i64, last_len: i64)
    ensures
        final(vertices)@ == (if old(vertices)@.len() > 1 && last_len < POLY_SUBPIXEL_SCALE + POLY_SUBPIXEL_SCALE / 2 {
            old(vertices)@.drop_last()
        } else {
            old(vertices)@
        }).push((x, y)),
{
    let n = vertices.len();
    if n > 1 {
        if last_len < POLY_SUBPIXEL_SCALE + POLY_SUBPIXEL_SCALE / 2 {
            vertices.pop();
        }
    }
    vertices.push((x, y));
}

} // verus!

verus! {

use crate::line_interp::{AA0, LineInterpolatorAA, DistanceInterpolator, DistanceInterpolator1, first_above, spread_cover,
                         WIDTH_LIMIT};
use crate::render::LINE_MAX_LENGTH;

/// `b` is `a` after one step of the line interpolator, along rows if
/// `vertical`, else along columns; the coverages aside
pub open spec fn aa0_next(a: AA0, b: AA0, vertical: bool) -> bool {
    &&& b.li.li.fields() == a.li.li.inc_spec()
    &&& b.li.step == a.li.step + 1
    &&& b.li.dist == a.li.dist
    &&& b.li.lp == a.li.lp
    &&& b.li.len == a.li.len
    &&& b.li.count == a.li.count
    &&& b.li.width == a.li.width
    &&& b.li.max_extent == a.li.max_extent
    &&& b.li.tables_ok()
    &&& if vertical {
        &&& b.li.y == a.li.y + a.li.lp.inc
        &&& b.li.x == a.li.x_after_ver()
        &&& b.li.old_x == b.li.x
        &&& b.li.old_y == a.li.old_y
        &&& b.di == a.li.di_after_ver(a.di)
    } else {
        &&& b.li.x == a.li.x + a.li.lp.inc
        &&& b.li.y == a.li.y_after_hor()
        &&& b.li.old_y == b.li.y
        &&& b.li.old_x == a.li.old_x
        &&& b.di == a.li.di_after_hor(a.di)
    }
}

/// `a` is an interpolator as `AA0::new(lp, w)` makes it
pub open spec fn aa0_start(lp: LineParameters, w: i64, a: AA0) -> bool {
    let f = LineInterpolatorAA::line_dda(lp);
    &&& a.li.fresh(lp, w)
    &&& a.li.li.fields() == (f.0, f.1, f.2, f.3 - f.0, f.4)
    &&& a.di == DistanceInterpolator1::new_spec(lp.x1, lp.y1, lp.x2, lp.y2,
            ((lp.x1 / 256) * 256) as i64, ((lp.y1 / 256) * 256) as i64)
}

/// `ws` are the states of an interpolator along `lp` from its start, one
/// step apart
pub open spec fn aa0_walk(lp: LineParameters, w: i64, ws: Seq<AA0>) -> bool {
    &&& ws.len() >= 1
    &&& aa0_start(lp, w, ws[0])
    &&& forall|k: int| 0 <= k < ws.len() - 1 ==> #[trigger] aa0_next(ws[k], ws[k + 1], lp.vertical)
}

/// The distance of the next pixel from the line, as a step from `a` finds it
pub open spec fn aa0_s1(a: AA0, vertical: bool) -> int {
    if vertical { a.li.s1_ver(a.di) } else { a.li.s1_hor(a.di) }
}

/// Coverage `d` can be read from line profile `p`
pub open spec fn profile_ok(p: Seq<u8>, d: int) -> bool {
    &&& 0 <= d + 512 < p.len()
    &&& d + 512 <= i64::MAX
}

/// Every coverage that spreading around a pixel at distance `s1` reads
/// from line profile `p` is there
pub open spec fn profile_queryable(p: Seq<u8>, dist: Seq<i64>, width: int, s1: int) -> bool {
    &&& profile_ok(p, s1 as i64 as int)
    &&& forall|k: int| 1 <= k <= 64 && dist[k] - s1 <= width ==> profile_ok(p, (dist[k] - s1) as i64 as int)
    &&& forall|k: int| 1 <= k <= 64 && dist[k] + s1 <= width ==> profile_ok(p, (dist[k] + s1) as i64 as int)
}

/// The coverage that line profile `p` gives the pixel `t` places from the
/// center of a spread at distance `s1`
pub open spec fn profile_spread(p: Seq<u8>, dist: Seq<i64>, s1: int, t: int) -> u64 {
    let d = if t == 0 { s1 as i64 } else if t > 0 { (dist[t] - s1) as i64 } else { (dist[-t] + s1) as i64 };
    p[d + 512] as u64
}

/// A step from `a` can be taken with the coverages of line profile `p`
pub open spec fn aa0_pre(a: AA0, p: Seq<u8>, vertical: bool) -> bool {
    let s1 = aa0_s1(a, vertical);
    &&& a.li.ready()
    &&& a.di.step_ok()
    &&& a.li.spread_ends(s1)
    &&& profile_queryable(p, a.li.dist@, a.li.width as int, s1)
}

/// Number of steps that drawing `lp` takes
pub open spec fn aa0_count(lp: LineParameters) -> int {
    if lp.vertical { crate::fixed::iabs(lp.y2 / 256 - lp.y1 / 256) } else { crate::fixed::iabs(lp.x2 / 256 - lp.x1 / 256) }
}

/// Every step that drawing `lp` takes can be taken
pub open spec fn aa0_walk_ok(lp: LineParameters, w: i64, p: Seq<u8>) -> bool {
    forall|ws: Seq<AA0>| #[trigger] aa0_walk(lp, w, ws) && ws.len() <= aa0_count(lp)
        ==> aa0_pre(ws.last(), p, lp.vertical)
}

/// Image `after` is image `before` after the step from `a` to `b` drew the
/// spread of `b` in color `c`
pub open spec fn aa0_drawn<T: Pixel>(a: AA0, b: AA0, before: RenderingBase<T>, after: RenderingBase<T>,
                                     c: Rgba8, vertical: bool) -> bool {
    let s1 = aa0_s1(a, vertical);
    let w = a.li.width as int;
    let k1 = first_above(a.li.dist@, w + s1, 1);
    let k2 = first_above(a.li.dist@, w - s1, 1);
    let covers = b.li.covers@.subrange(67 - k2, 132);
    let len = (k1 + k2 - 1) as i64 as int;
    if vertical {
        solid_hspan_done(&before, &after, (b.li.x - k2 + 1) as i64 as int, b.li.y as int, len, c, covers)
    } else {
        solid_vspan_done(&before, &after, b.li.x as int, (b.li.y - k2 + 1) as i64 as int, len, c, covers)
    }
}

/// The coverages of the step from `a` to `b`: those of line profile `p` at
/// the distances of the spread
pub open spec fn aa0_covers(a: AA0, b: AA0, p: Seq<u8>, vertical: bool) -> bool {
    let s1 = aa0_s1(a, vertical);
    let w = a.li.width as int;
    let k1 = first_above(a.li.dist@, w + s1, 1);
    let k2 = first_above(a.li.dist@, w - s1, 1);
    forall|t: int| -k2 < t < k1 ==> #[trigger] b.li.covers@[66 + t] == profile_spread(p, a.li.dist@, s1, t)
}

/// Each of the first `n` steps of `ws` drew its spread, from image `imgs[k]`
/// to image `imgs[k + 1]`, with the coverages of line profile `p`
pub open spec fn aa0_chain<T: Pixel>(ws: Seq<AA0>, imgs: Seq<RenderingBase<T>>, p: Seq<u8>, c: Rgba8,
                                     vertical: bool, n: int) -> bool {
    forall|k: int| 0 <= k < n ==> {
        &&& #[trigger] aa0_drawn(ws[k], ws[k + 1], imgs[k], imgs[k + 1], c, vertical)
        &&& aa0_covers(ws[k], ws[k + 1], p, vertical)
    }
}

/// Image `after` is image `before` after `lp` is drawn with no end cut, in
/// color `c` with line profile `p` for a line `w` wide: the run of
/// interpolator steps along it, each drawing its spread
pub open spec fn aa0_run<T: Pixel>(lp: LineParameters, w: i64, p: Seq<u8>, c: Rgba8,
                                   before: RenderingBase<T>, after: RenderingBase<T>) -> bool {
    let n = aa0_count(lp);
    if n <= 0 {
        after == before
    } else {
        exists|ws: Seq<AA0>, imgs: Seq<RenderingBase<T>>| {
            &&& aa0_walk(lp, w, ws)
            &&& ws.len() == n + 1
            &&& imgs.len() == n + 1
            &&& imgs[0] == before
            &&& imgs[n] == after
            &&& #[trigger] aa0_chain(ws, imgs, p, c, lp.vertical, n)
        }
    }
}

/// The two halves a long line is drawn as
pub open spec fn halves(lp: LineParameters) -> (LineParameters, LineParameters) {
    let xmid = crate::fixed::tdiv(lp.x1 + lp.x2, 2) as i64;
    let ymid = crate::fixed::tdiv(lp.y1 + lp.y2, 2) as i64;
    let len2 = crate::fixed::tdiv(lp.len as int, 2) as i64;
    (LineParameters::new_spec(lp.x1, lp.y1, xmid, ymid, len2), LineParameters::new_spec(xmid, ymid, lp.x2, lp.y2, len2))
}

/// Drawing `lp` with no end cut, with line profile `p` for a line `w` wide,
/// can be done: the line is in range, and each half of a long line, or
/// each step of a short one, can be drawn
pub open spec fn line0_ok(lp: LineParameters, w: i64, p: Seq<u8>) -> bool
    decreases lp.len,
{
    &&& lp.wf()
    &&& 0 <= w < WIDTH_LIMIT
    &&& if lp.len > LINE_MAX_LENGTH {
        &&& line0_ok(halves(lp).0, w, p)
        &&& line0_ok(halves(lp).1, w, p)
    } else {
        aa0_walk_ok(lp, w, p)
    }
}

/// Image `after` is image `before` after `lp` is drawn with no end cut: a
/// long line as its two halves in turn, a short one as a run of steps
pub open spec fn line0_drawn<T: Pixel>(lp: LineParameters, w: i64, p: Seq<u8>, c: Rgba8,
                                       before: RenderingBase<T>, after: RenderingBase<T>) -> bool
    decreases lp.len,
{
    if lp.len > LINE_MAX_LENGTH {
        exists|mid: RenderingBase<T>| {
            &&& #[trigger] mid.wf()
            &&& line0_drawn(halves(lp).0, w, p, c, before, mid)
            &&& line0_drawn(halves(lp).1, w, p, c, mid, after)
        }
    } else {
        aa0_run(lp, w, p, c, before, after)
    }
}

/// The pieces a line with no end cut is drawn as, in order: a short line
/// is one piece, a long one the pieces of its first half, then those of its
/// second half
pub open spec fn line0_pieces(lp: LineParameters) -> Seq<LineParameters>
    decreases lp.len,
{
    if lp.len > LINE_MAX_LENGTH {
        line0_pieces(halves(lp).0) + line0_pieces(halves(lp).1)
    } else {
        seq![lp]
    }
}

/// The pieces of a line tile it: the first starts at the line's start, the
/// last ends at its end, each starts where the one before ends, and none is
/// longer than `LINE_MAX_LENGTH`
pub proof fn lemma_line0_pieces_tile(lp: LineParameters)
    ensures
        ({
            let ps = line0_pieces(lp);
            &&& ps.len() >= 1
            &&& ps[0].x1 == lp.x1 && ps[0].y1 == lp.y1
            &&& ps.last().x2 == lp.x2 && ps.last().y2 == lp.y2
            &&& forall|k: int| 0 <= k < ps.len() - 1 ==> (#[trigger] ps[k]).x2 == ps[k + 1].x1
                && ps[k].y2 == ps[k + 1].y1
            &&& forall|k: int| 0 <= k < ps.len() ==> (#[trigger] ps[k]).len <= LINE_MAX_LENGTH
        }),
    decreases lp.len,
{
    if lp.len > LINE_MAX_LENGTH {
        let (h0, h1) = halves(lp);
        lemma_line0_pieces_tile(h0);
        lemma_line0_pieces_tile(h1);
        let a = line0_pieces(h0);
        let b = line0_pieces(h1);
        let ps = a + b;
        assert(line0_pieces(lp) == ps);
        assert forall|k: int| 0 <= k < ps.len() - 1 implies (#[trigger] ps[k]).x2 == ps[k + 1].x1
            && ps[k].y2 == ps[k + 1].y1 by {
            if k < a.len() - 1 {
                assert(ps[k] == a[k] && ps[k + 1] == a[k + 1]);
            } else if k == a.len() - 1 {
                assert(ps[k] == a.last() && ps[k + 1] == b[0]);
            } else {
                assert(ps[k] == b[k - a.len()] && ps[k + 1] == b[k - a.len() + 1]);
            }
        }
        assert forall|k: int| 0 <= k < ps.len() implies (#[trigger] ps[k]).len <= LINE_MAX_LENGTH by {
            if k < a.len() { assert(ps[k] == a[k]); } else { assert(ps[k] == b[k - a.len()]); }
        }
    }
}

/// Each image of `imgs` is the one before with the next of the pieces `ps`
/// drawn as a run of interpolator steps
pub open spec fn pieces_chain<T: Pixel>(ps: Seq<LineParameters>, w: i64, p: Seq<u8>, c: Rgba8,
                                        imgs: Seq<RenderingBase<T>>) -> bool {
    forall|k: int| 0 <= k < ps.len() ==> #[trigger] aa0_run(ps[k], w, p, c, imgs[k], imgs[k + 1])
}

/// Drawing a line with no end cut draws each of its pieces in turn: there
/// is a chain of images from the one before to the one after, each the one
/// before with the next piece drawn as a run of interpolator steps
pub proof fn lemma_line0_drawn_pieces<T: Pixel>(lp: LineParameters, w: i64, p: Seq<u8>, c: Rgba8,
                                                before: RenderingBase<T>, after: RenderingBase<T>)
    requires
        line0_drawn(lp, w, p, c, before, after),
    ensures
        exists|imgs: Seq<RenderingBase<T>>| {
            &&& imgs.len() == line0_pieces(lp).len() + 1
            &&& imgs[0] == before
            &&& imgs.last() == after
            &&& #[trigger] pieces_chain(line0_pieces(lp), w, p, c, imgs)
        },
    decreases lp.len,
{
    if lp.len > LINE_MAX_LENGTH {
        let (h0, h1) = halves(lp);
        let mid = choose|mid: RenderingBase<T>| {
            &&& #[trigger] mid.wf()
            &&& line0_drawn(h0, w, p, c, before, mid)
            &&& line0_drawn(h1, w, p, c, mid, after)
        };
        lemma_line0_drawn_pieces(h0, w, p, c, before, mid);
        lemma_line0_drawn_pieces(h1, w, p, c, mid, after);
        let a = line0_pieces(h0);
        let b = line0_pieces(h1);
        let ia = choose|imgs: Seq<RenderingBase<T>>| {
            &&& imgs.len() == a.len() + 1
            &&& imgs[0] == before
            &&& imgs.last() == mid
            &&& #[trigger] pieces_chain(a, w, p, c, imgs)
        };
        let ib = choose|imgs: Seq<RenderingBase<T>>| {
            &&& imgs.len() == b.len() + 1
            &&& imgs[0] == mid
            &&& imgs.last() == after
            &&& #[trigger] pieces_chain(b, w, p, c, imgs)
        };
        let ps = a + b;
        let imgs = ia + ib.subrange(1, ib.len() as int);
        assert(line0_pieces(lp) == ps);
        assert forall|k: int| 0 <= k < ps.len() implies #[trigger] aa0_run(ps[k], w, p, c, imgs[k], imgs[k + 1]) by {
            if k < a.len() {
                assert(ps[k] == a[k] && imgs[k] == ia[k] && imgs[k + 1] == ia[k + 1]);
            } else {
                let j = k - a.len();
                assert(ps[k] == b[j]);
                assert(imgs[k + 1] == ib[j + 1]);
                if j == 0 {
                    assert(imgs[k] == ia.last());
                } else {
                    assert(imgs[k] == ib[j]);
                }
            }
        }
        assert(imgs.last() == ib.last());
        assert(imgs[0] == ia[0]);
        assert(pieces_chain(line0_pieces(lp), w, p, c, imgs));
    } else {
        let imgs = seq![before, after];
        assert(line0_pieces(lp) == seq![lp]);
        assert(aa0_run(line0_pieces(lp)[0], w, p, c, imgs[0], imgs[1]));
        assert(pieces_chain(line0_pieces(lp), w, p, c, imgs));
    }
}

/// The coverage queries of a renderer are those of its line profile
pub proof fn lemma_profile<T: Pixel>(r: &RendererOutlineAA<T>, dist: Seq<i64>, w: int, s1: int)
    ensures
        covers_queryable(r, dist, w, s1) == profile_queryable(r.profile@, dist, w, s1),
        forall|t: int| spread_cover(r, dist, s1, t) == #[trigger] profile_spread(r.profile@, dist, s1, t),
{
}

} // verus!

verus! {

impl<'a, T: Pixel> RendererOutlineAA<'a, T> {
    /// Draw the line `lp` with neither end cut: a line longer than
    /// `LINE_MAX_LENGTH` as its two halves, else by stepping an interpolator
    /// along it, each step drawing the spread of coverages around one pixel
    #[verifier::spinoff_prover]
    #[verifier::rlimit(30)]
    pub fn line0_no_clip(&mut self, lp: &LineParameters)
        requires
            old(self).ren.wf(),
            line0_ok(*lp, old(self).subpixel_width, old(self).profile@),
        ensures
            final(self).ren.wf(),
            final(self).color == old(self).color,
            final(self).profile@ == old(self).profile@,
            final(self).subpixel_width == old(self).subpixel_width,
            line0_drawn(*lp, old(self).subpixel_width, old(self).profile@, old(self).color,
                *old(self).ren, *final(self).ren),
        decreases lp.len,
    {
        if lp.len > LINE_MAX_LENGTH {
            let (lp1, lp2) = lp.divide();
            let ghost before = *self.ren;
            let ghost w0 = self.subpixel_width;
            let ghost p0 = self.profile@;
            let ghost c0 = self.color;
            self.line0_no_clip(&lp1);
            let ghost mid = *self.ren;
            self.line0_no_clip(&lp2);
            assert(lp1 == halves(*lp).0 && lp2 == halves(*lp).1);
            assert(line0_drawn(halves(*lp).0, w0, p0, c0, before, mid));
            assert(line0_drawn(halves(*lp).1, w0, p0, c0, mid, *self.ren));
            let ghost after = *self.ren;
            assert(mid.wf());
            assert(line0_drawn(*lp, w0, p0, c0, before, after));
            return;
        }
        let ghost w = self.subpixel_width;
        let ghost p = self.profile@;
        let ghost c = self.color;
        let ghost before = *self.ren;
        let mut li = lp.interp0(self.subpixel_width());
        let count = li.count();
        if count > 0 {
            let vertical = li.vertical();
            let ghost mut ws: Seq<AA0> = seq![li];
            let ghost mut imgs: Seq<RenderingBase<T>> = seq![*self.ren];
            loop
                invariant_except_break
                    li.li.step < count,
                invariant
                    aa0_walk(*lp, w, ws),
                    ws.last() == li,
                    ws.len() == li.li.step + 1,
                    li.li.count == count,
                    count == aa0_count(*lp),
                    vertical == lp.vertical,
                    imgs.len() == ws.len(),
                    imgs[0] == before,
                    imgs.last() == *self.ren,
                    aa0_chain(ws, imgs, p, c, vertical, ws.len() - 1),
                    self.ren.wf(),
                    self.color == c,
                    self.profile@ == p,
                    self.subpixel_width == w,
                    aa0_walk_ok(*lp, w, p),
                ensures
                    ws.len() == count + 1,
                decreases count - li.li.step,
            {
                proof {
                    assert(aa0_pre(ws.last(), p, vertical));
                    lemma_profile(self, li.li.dist@, li.li.width as int, aa0_s1(li, vertical));
                    self.lemma_spans_drawable();
                }
                let ghost a = li;
                let ghost img_a = *self.ren;
                let more = if vertical { li.step_ver(self) } else { li.step_hor(self) };
                proof {
                    lemma_profile(self, a.li.dist@, a.li.width as int, aa0_s1(a, vertical));
                    assert(aa0_next(a, li, vertical));
                    assert(aa0_drawn(a, li, img_a, *self.ren, c, vertical));
                    assert(aa0_covers(a, li, p, vertical));
                    let ws0 = ws;
                    let imgs0 = imgs;
                    ws = ws.push(li);
                    imgs = imgs.push(*self.ren);
                    assert forall|k: int| 0 <= k < ws.len() - 1 implies #[trigger] aa0_next(ws[k], ws[k + 1], lp.vertical) by {
                        if k < ws0.len() - 1 {
                            assert(aa0_next(ws0[k], ws0[k + 1], lp.vertical));
                        }
                    }
                    assert forall|k: int| 0 <= k < ws.len() - 1 implies {
                        &&& #[trigger] aa0_drawn(ws[k], ws[k + 1], imgs[k], imgs[k + 1], c, vertical)
                        &&& aa0_covers(ws[k], ws[k + 1], p, vertical)
                    } by {
                        if k < ws0.len() - 1 {
                            assert(aa0_chain(ws0, imgs0, p, c, vertical, ws0.len() - 1));
                        }
                        if k < ws0.len() - 1 {
                            assert(aa0_drawn(ws0[k], ws0[k + 1], imgs0[k], imgs0[k + 1], c, vertical));
                        } else {
                            assert(ws[k] == a && ws[k + 1] == li);
                            assert(imgs[k] == img_a && imgs[k + 1] == *self.ren);
                        }
                    }
                    assert(aa0_chain(ws, imgs, p, c, vertical, ws.len() - 1));
                }
                if !more {
                    break;
                }
            }
            assert(imgs[count as int] == *self.ren);
            assert(aa0_walk(*lp, w, ws));
            assert(imgs.len() == count + 1);
            assert(ws.len() - 1 == aa0_count(*lp));
            assert(aa0_chain(ws, imgs, p, c, lp.vertical, aa0_count(*lp)));
            assert(aa0_run(*lp, w, p, c, before, *self.ren));
        }
    }

    /// Draw the line `lp` with neither end cut
    pub fn line0(&mut self, lp: &LineParameters)
        requires
            old(self).ren.wf(),
            line0_ok(*lp, old(self).subpixel_width, old(self).profile@),
        ensures
            final(self).ren.wf(),
            final(self).color == old(self).color,
            final(self).profile@ == old(self).profile@,
            final(self).subpixel_width == old(self).subpixel_width,
            line0_drawn(*lp, old(self).subpixel_width, old(self).profile@, old(self).color,
                *old(self).ren, *final(self).ren),
    {
        self.line0_no_clip(lp);
    }
}

} // verus!

verus! {

/// The `k`-th step of a walk along a line without end cuts moves to the
/// `k`-th pixel along the major axis: the column `lp.x1 / 256 + k * inc`
/// for a mostly horizontal line, the row `lp.y1 / 256 + k * inc` for a
/// mostly vertical one; the step counter counts the steps
pub proof fn lemma_aa0_walk_position(lp: LineParameters, w: i64, ws: Seq<AA0>, k: int)
    requires
        aa0_walk(lp, w, ws),
        0 <= k < ws.len(),
    ensures
        ws[k].li.step == k,
        ws[k].li.lp == lp,
        ws[k].li.count == ws[0].li.count,
        !lp.vertical ==> ws[k].li.x == lp.x1 / 256 + k * lp.inc,
        lp.vertical ==> ws[k].li.y == lp.y1 / 256 + k * lp.inc,
    decreases k,
{
    if k > 0 {
        lemma_aa0_walk_position(lp, w, ws, k - 1);
        let j = k - 1;
        assert(aa0_next(ws[j], ws[j + 1], lp.vertical));
        assert(j * lp.inc + lp.inc == k * lp.inc) by (nonlinear_arith) requires j == k - 1;
    }
}

} // verus!

verus! {

/// The line that operation `op` draws, if it draws one
pub open spec fn op_line(op: OutlineOp) -> Seq<LineParameters> {
    match op {
        OutlineOp::Line0(l) => seq![l],
        OutlineOp::Line1(l, _, _) => seq![l],
        OutlineOp::Line2(l, _, _) => seq![l],
        OutlineOp::Line3(l, _, _, _, _) => seq![l],
        _ => seq![],
    }
}

/// The lines that the operations `ops` draw, in order
pub open spec fn op_lines(ops: Seq<OutlineOp>) -> Seq<LineParameters>
    decreases ops.len(),
{
    if ops.len() == 0 {
        seq![]
    } else {
        op_lines(ops.drop_last()) + op_line(ops.last())
    }
}

/// The lines of one operation
pub proof fn lemma_op_lines_one(op: OutlineOp)
    ensures
        op_lines(seq![op]) == op_line(op),
{
    assert(seq![op].drop_last() =~= Seq::<OutlineOp>::empty());
    assert(op_lines(Seq::<OutlineOp>::empty()) + op_line(op) =~= op_line(op));
}

/// The lines of two runs of operations in turn are those of the first,
/// then those of the second
pub proof fn lemma_op_lines_add(a: Seq<OutlineOp>, b: Seq<OutlineOp>)
    ensures
        op_lines(a + b) == op_lines(a) + op_lines(b),
    decreases b.len(),
{
    if b.len() == 0 {
        assert(a + b =~= a);
        assert(op_lines(b) =~= seq![]);
        assert(op_lines(a) + op_lines(b) =~= op_lines(a));
    } else {
        lemma_op_lines_add(a, b.drop_last());
        assert((a + b).drop_last() =~= a + b.drop_last());
        assert((a + b).last() == b.last());
        assert(op_lines(a) + op_lines(b.drop_last()) + op_lines(b).subrange(op_lines(b.drop_last()).len() as int,
            op_lines(b).len() as int) =~= op_lines(a) + op_lines(b));
    }
}

/// The segments `i .. end` of the outline, in order
pub open spec fn segs(vs: Seq<(i64, i64)>, lens: Seq<i64>, i: int, end: int) -> Seq<LineParameters> {
    Seq::new((end - i) as nat, |j: int| seg(vs, lens, i + j))
}

/// The loop draws the segments `i .. end`, one line each
pub proof fn lemma_draw_run_lines(vs: Seq<(i64, i64)>, lens: Seq<i64>, bis: Seq<(i64, i64)>, join: LineJoin,
                                  i: int, end: int, st: JoinState, acc: Seq<OutlineOp>)
    requires
        i <= end,
    ensures
        op_lines(draw_run(vs, lens, bis, join, i, end, st, acc).0) == op_lines(acc) + segs(vs, lens, i, end),
    decreases end - i,
{
    if i >= end {
        assert(segs(vs, lens, i, end) =~= seq![]);
        assert(op_lines(acc) + segs(vs, lens, i, end) =~= op_lines(acc));
    } else {
        let ops = draw_line_ops(vs, lens, join, i, st);
        lemma_draw_run_lines(vs, lens, bis, join, i + 1, end, draw_line_state(vs, lens, bis, join, i, st), acc + ops);
        lemma_op_lines_add(acc, ops);
        let line = ops[0];
        let rest = ops.subrange(1, ops.len() as int);
        assert(ops =~= seq![line] + rest);
        lemma_op_lines_add(seq![line], rest);
        lemma_op_lines_one(line);
        if rest.len() == 1 {
            lemma_op_lines_one(rest[0]);
            assert(rest =~= seq![rest[0]]);
        } else {
            assert(rest =~= Seq::<OutlineOp>::empty());
            assert(op_lines(rest) =~= seq![]);
        }
        assert(op_lines(ops) =~= seq![seg(vs, lens, i)]);
        assert(seq![seg(vs, lens, i)] + segs(vs, lens, i + 1, end) =~= segs(vs, lens, i, end));
        assert(op_lines(acc) + op_lines(ops) + segs(vs, lens, i + 1, end)
            =~= op_lines(acc) + segs(vs, lens, i, end));
    }
}

proof fn lemma_two_ops_lines(vs: Seq<(i64, i64)>, lens: Seq<i64>, bis: Seq<(i64, i64)>, round_cap: bool, join: LineJoin)
    requires
        vs.len() == 2,
        lens.len() == vs.len(),
        bis.len() == vs.len(),
    ensures
        op_lines(outline_ops_spec(vs, lens, bis, round_cap, join)) == segs(vs, lens, 0, vs.len() - 1),
{
    let l0 = seg(vs, lens, 0);
    let cap0: Seq<OutlineOp> = if round_cap { seq![start_cap(l0)] } else { seq![] };
    if round_cap {
        lemma_op_lines_one(start_cap(l0));
    } else {
        assert(op_lines(cap0) =~= seq![]);
    }
    assert(op_lines(cap0) =~= seq![]);
    let cap1: Seq<OutlineOp> = if round_cap { seq![end_cap(l0)] } else { seq![] };
    if round_cap { lemma_op_lines_one(end_cap(l0)); } else { assert(op_lines(cap1) =~= seq![]); }
    lemma_op_lines_one(square_line(l0));
    lemma_op_lines_add(cap0, seq![square_line(l0)]);
    lemma_op_lines_add(cap0 + seq![square_line(l0)], cap1);
    assert(two_ops(vs, lens, round_cap) == cap0 + seq![square_line(l0)] + cap1);
    assert(segs(vs, lens, 0, 1) =~= seq![l0]);
}

proof fn lemma_three_ops_lines(vs: Seq<(i64, i64)>, lens: Seq<i64>, bis: Seq<(i64, i64)>, round_cap: bool, join: LineJoin)
    requires
        vs.len() == 3,
        lens.len() == vs.len(),
        bis.len() == vs.len(),
    ensures
        op_lines(outline_ops_spec(vs, lens, bis, round_cap, join)) == segs(vs, lens, 0, vs.len() - 1),
{
    let l0 = seg(vs, lens, 0);
    let cap0: Seq<OutlineOp> = if round_cap { seq![start_cap(l0)] } else { seq![] };
    if round_cap {
        lemma_op_lines_one(start_cap(l0));
    } else {
        assert(op_lines(cap0) =~= seq![]);
    }
    assert(op_lines(cap0) =~= seq![]);
    let l1 = seg(vs, lens, 1);
    let cap1: Seq<OutlineOp> = if round_cap { seq![end_cap(l1)] } else { seq![] };
    if round_cap { lemma_op_lines_one(end_cap(l1)); } else { assert(op_lines(cap1) =~= seq![]); }
    let b = bis[1];
    let mid: Seq<OutlineOp> = if join == LineJoin::Round {
        seq![square_line(l0), join_pie(l0, l1), square_line(l1)]
    } else {
        seq![OutlineOp::Line3(l0, start_perp(l0).0, start_perp(l0).1, b.0, b.1),
             OutlineOp::Line3(l1, b.0, b.1, end_perp(l1).0, end_perp(l1).1)]
    };
    assert(op_lines(mid) =~= seq![l0, l1]) by {
        if join == LineJoin::Round {
            lemma_op_lines_one(square_line(l0));
            lemma_op_lines_one(join_pie(l0, l1));
            lemma_op_lines_one(square_line(l1));
            lemma_op_lines_add(seq![square_line(l0)], seq![join_pie(l0, l1)]);
            lemma_op_lines_add(seq![square_line(l0), join_pie(l0, l1)], seq![square_line(l1)]);
            assert(seq![square_line(l0)] + seq![join_pie(l0, l1)] =~= seq![square_line(l0), join_pie(l0, l1)]);
            assert(seq![square_line(l0), join_pie(l0, l1)] + seq![square_line(l1)] =~= mid);
        } else {
            let a = OutlineOp::Line3(l0, start_perp(l0).0, start_perp(l0).1, b.0, b.1);
            let c = OutlineOp::Line3(l1, b.0, b.1, end_perp(l1).0, end_perp(l1).1);
            lemma_op_lines_one(a);
            lemma_op_lines_one(c);
            lemma_op_lines_add(seq![a], seq![c]);
            assert(seq![a] + seq![c] =~= mid);
        }
    }
    lemma_op_lines_add(cap0, mid);
    lemma_op_lines_add(cap0 + mid, cap1);
    assert(three_ops(vs, lens, bis, round_cap, join) == cap0 + mid + cap1);
    assert(segs(vs, lens, 0, 2) =~= seq![l0, l1]);
}

#[verifier::rlimit(40)]
proof fn lemma_many_ops_lines(vs: Seq<(i64, i64)>, lens: Seq<i64>, bis: Seq<(i64, i64)>, round_cap: bool, join: LineJoin)
    requires
        vs.len() >= 4,
        lens.len() == vs.len(),
        bis.len() == vs.len(),
    ensures
        op_lines(outline_ops_spec(vs, lens, bis, round_cap, join)) == segs(vs, lens, 0, vs.len() - 1),
{
    let n = vs.len() as int;
    let l0 = seg(vs, lens, 0);
    let cap0: Seq<OutlineOp> = if round_cap { seq![start_cap(l0)] } else { seq![] };
    if round_cap {
        lemma_op_lines_one(start_cap(l0));
    } else {
        assert(op_lines(cap0) =~= seq![]);
    }
    assert(op_lines(cap0) =~= seq![]);
    let (start, st) = many_start(vs, lens, bis, round_cap, join);
    let flags = first_flags(vs, lens, join);
    let l1 = seg(vs, lens, 1);
    let first: Seq<OutlineOp> = if (flags & 1u8) == 0 {
        if join == LineJoin::Round {
            seq![square_line(l0),
                 OutlineOp::Pie(l0.x2, l0.y2, end_perp(l0).0, end_perp(l0).1,
                     (l1.x1 + (l1.y2 - l1.y1)) as i64, (l1.y1 + (l1.x2 - l1.x1)) as i64)]
        } else {
            seq![OutlineOp::Line3(l0, start_perp(l0).0, start_perp(l0).1, bis[1].0, bis[1].1)]
        }
    } else {
        seq![OutlineOp::Line1(l0, start_perp(l0).0, start_perp(l0).1)]
    };
    assert(start == cap0 + first);
    assert(op_lines(first) =~= seq![l0]) by {
        if first.len() == 2 {
            lemma_op_lines_one(first[0]);
            lemma_op_lines_one(first[1]);
            lemma_op_lines_add(seq![first[0]], seq![first[1]]);
            assert(seq![first[0]] + seq![first[1]] =~= first);
        } else {
            lemma_op_lines_one(first[0]);
            assert(seq![first[0]] =~= first);
        }
    }
    lemma_op_lines_add(cap0, first);
    lemma_draw_run_lines(vs, lens, bis, join, 1, n - 2, st, start);
    let (ops, st2) = draw_run(vs, lens, bis, join, 1, n - 2, st, start);
    let last = seg(vs, lens, n - 2);
    let endops = many_end(vs, lens, round_cap, join, st2);
    let line_end: Seq<OutlineOp> = if (st2.0 & 1u8) == 0 {
        if join == LineJoin::Round {
            seq![square_line(last)]
        } else {
            seq![OutlineOp::Line3(last, st2.1, st2.2, end_perp(last).0, end_perp(last).1)]
        }
    } else {
        seq![OutlineOp::Line2(last, end_perp(last).0, end_perp(last).1)]
    };
    let cap1: Seq<OutlineOp> = if round_cap { seq![end_cap(last)] } else { seq![] };
    if round_cap { lemma_op_lines_one(end_cap(last)); } else { assert(op_lines(cap1) =~= seq![]); }
    lemma_op_lines_one(line_end[0]);
    assert(seq![line_end[0]] =~= line_end);
    assert(endops == line_end + cap1);
    lemma_op_lines_add(line_end, cap1);
    lemma_op_lines_add(ops, endops);
    assert(op_lines(endops) =~= seq![last]);
    assert(seq![l0] + segs(vs, lens, 1, n - 2) + seq![last] =~= segs(vs, lens, 0, n - 1));
}

/// An open outline of two or more vertices draws each of its segments
/// exactly once, in order: its line operations are the segments from the
/// first vertex to the last
pub proof fn lemma_outline_draws_each_segment(vs: Seq<(i64, i64)>, lens: Seq<i64>, bis: Seq<(i64, i64)>,
                                              round_cap: bool, join: LineJoin)
    requires
        vs.len() >= 2,
        lens.len() == vs.len(),
        bis.len() == vs.len(),
    ensures
        op_lines(outline_ops_spec(vs, lens, bis, round_cap, join)) == segs(vs, lens, 0, vs.len() - 1),
{
    if vs.len() == 2 {
        lemma_two_ops_lines(vs, lens, bis, round_cap, join);
    } else if vs.len() == 3 {
        lemma_three_ops_lines(vs, lens, bis, round_cap, join);
    } else {
        lemma_many_ops_lines(vs, lens, bis, round_cap, join);
    }
}

/// The round join that operation `op` draws, if it draws one: its center
/// and the points that bound it on the side of the incoming line and on the
/// side of the outgoing one
pub open spec fn op_pie(op: OutlineOp) -> Seq<(i64, i64, i64, i64, i64, i64)> {
    match op {
        OutlineOp::Pie(xc, yc, x1, y1, x2, y2) => seq![(xc, yc, x1, y1, x2, y2)],
        _ => seq![],
    }
}

/// The round joins that the operations `ops` draw, in order
pub open spec fn op_pies(ops: Seq<OutlineOp>) -> Seq<(i64, i64, i64, i64, i64, i64)>
    decreases ops.len(),
{
    if ops.len() == 0 {
        seq![]
    } else {
        op_pies(ops.drop_last()) + op_pie(ops.last())
    }
}

proof fn lemma_op_pies_one(op: OutlineOp)
    ensures
        op_pies(seq![op]) == op_pie(op),
{
    assert(seq![op].drop_last() =~= Seq::<OutlineOp>::empty());
    assert(op_pies(Seq::<OutlineOp>::empty()) + op_pie(op) =~= op_pie(op));
}

proof fn lemma_op_pies_add(a: Seq<OutlineOp>, b: Seq<OutlineOp>)
    ensures
        op_pies(a + b) == op_pies(a) + op_pies(b),
    decreases b.len(),
{
    if b.len() == 0 {
        assert(a + b =~= a);
        assert(op_pies(b) =~= seq![]);
        assert(op_pies(a) + op_pies(b) =~= op_pies(a));
    } else {
        lemma_op_pies_add(a, b.drop_last());
        assert((a + b).drop_last() =~= a + b.drop_last());
        assert((a + b).last() == b.last());
        assert(op_pies(a) + op_pies(b.drop_last()) + op_pie(b.last()) =~= op_pies(a) + op_pies(b));
    }
}

/// The round joins an outline needs at its vertices `j .. end`: one at each
/// vertex where the incoming and the outgoing segment lie in different
/// diagonal quadrants, centered on the vertex and bounded on the incoming
/// side by the point square to the incoming segment at its end, on the
/// outgoing side by the point square to the outgoing segment at its start
/// (at the first inner vertex, that point mirrored across the outgoing
/// segment, as the join there is drawn)
pub open spec fn round_joins(vs: Seq<(i64, i64)>, lens: Seq<i64>, j: int, end: int)
                             -> Seq<(i64, i64, i64, i64, i64, i64)>
    decreases end - j,
{
    if j >= end {
        seq![]
    } else {
        let prev = seg(vs, lens, j - 1);
        let next = seg(vs, lens, j);
        let arm = if j == 1 {
            ((next.x1 + (next.y2 - next.y1)) as i64, (next.y1 + (next.x2 - next.x1)) as i64)
        } else {
            start_perp(next)
        };
        (if quad(prev) != quad(next) {
            seq![(vs[j].0, vs[j].1, end_perp(prev).0, end_perp(prev).1, arm.0, arm.1)]
        } else {
            seq![]
        }) + round_joins(vs, lens, j + 1, end)
    }
}

proof fn lemma_flag_shift_bits(f: u8, q: u8)
    by (bit_vector)
    requires
        f < 4,
        q == 0 || q == 2,
    ensures
        ((f >> 1u8) | q) & 2u8 == q,
        ((f >> 1u8) | q) < 4,
{
}

proof fn lemma_flag_first_bits(a: u8, b: u8)
    by (bit_vector)
    requires
        a == 0 || a == 1,
        b == 0 || b == 2,
    ensures
        (a | b) & 1u8 == a,
        (a | b) & 2u8 == b,
        (a | b) < 4,
{
}

/// The end of segment `i` is vertex `i + 1`
proof fn lemma_seg_end(vs: Seq<(i64, i64)>, lens: Seq<i64>, i: int)
    requires
        0 <= i,
        i + 1 < vs.len(),
    ensures
        seg(vs, lens, i).x2 == vs[i + 1].0,
        seg(vs, lens, i).y2 == vs[i + 1].1,
{
    vstd::arithmetic::div_mod::lemma_small_mod((i + 1) as nat, vs.len() as nat);
}

proof fn lemma_draw_run_pies(vs: Seq<(i64, i64)>, lens: Seq<i64>, bis: Seq<(i64, i64)>, i: int, end: int,
                             st: JoinState, acc: Seq<OutlineOp>)
    requires
        1 <= i <= end,
        end + 2 <= vs.len(),
        st.0 < 4,
        ((st.0 & 2u8) == 0) == (quad(seg(vs, lens, i)) != quad(seg(vs, lens, i + 1))),
    ensures
        op_pies(draw_run(vs, lens, bis, LineJoin::Round, i, end, st, acc).0)
            == op_pies(acc) + round_joins(vs, lens, i + 1, end + 1),
    decreases end - i,
{
    let join = LineJoin::Round;
    if i >= end {
        assert(round_joins(vs, lens, i + 1, end + 1) =~= seq![]);
        assert(op_pies(acc) + round_joins(vs, lens, i + 1, end + 1) =~= op_pies(acc));
    } else {
        let ops = draw_line_ops(vs, lens, join, i, st);
        let st2 = draw_line_state(vs, lens, bis, join, i, st);
        let q: u8 = if quad(seg(vs, lens, i + 1)) == quad(seg(vs, lens, i + 2)) { 2u8 } else { 0u8 };
        lemma_flag_shift_bits(st.0, q);
        assert(st2.0 == ((st.0 >> 1u8) | q));
        lemma_draw_run_pies(vs, lens, bis, i + 1, end, st2, acc + ops);
        lemma_op_pies_add(acc, ops);
        let curr = seg(vs, lens, i);
        let line = ops[0];
        let rest = ops.subrange(1, ops.len() as int);
        assert(ops =~= seq![line] + rest);
        lemma_op_pies_add(seq![line], rest);
        lemma_op_pies_one(line);
        assert(op_pie(line) =~= seq![]);
        lemma_seg_end(vs, lens, i);
        let next = seg(vs, lens, i + 1);
        let head: Seq<(i64, i64, i64, i64, i64, i64)> = if quad(curr) != quad(next) {
            seq![(vs[i + 1].0, vs[i + 1].1, end_perp(curr).0, end_perp(curr).1, start_perp(next).0,
                start_perp(next).1)]
        } else {
            seq![]
        };
        if rest.len() == 1 {
            lemma_op_pies_one(rest[0]);
            assert(rest =~= seq![rest[0]]);
        } else {
            assert(rest =~= Seq::<OutlineOp>::empty());
            assert(op_pies(rest) =~= seq![]);
        }
        assert(op_pies(ops) =~= head);
        assert(round_joins(vs, lens, i + 1, end + 1) == head + round_joins(vs, lens, i + 2, end + 1));
        assert(op_pies(acc) + head + round_joins(vs, lens, i + 2, end + 1)
            =~= op_pies(acc) + round_joins(vs, lens, i + 1, end + 1));
    }
}

/// With round joins, an open outline of four or more vertices draws one
/// round join at each inner vertex whose incoming and outgoing segments lie
/// in different diagonal quadrants, and no other: in order, centered on the
/// vertex, bounded by the point square to the incoming segment at its end;
/// an outline of three vertices always draws the round join at its middle
/// vertex
#[verifier::rlimit(40)]
pub proof fn lemma_round_joins(vs: Seq<(i64, i64)>, lens: Seq<i64>, bis: Seq<(i64, i64)>, round_cap: bool)
    requires
        vs.len() >= 3,
        lens.len() == vs.len(),
        bis.len() == vs.len(),
    ensures
        vs.len() >= 4 ==> op_pies(outline_ops_spec(vs, lens, bis, round_cap, LineJoin::Round))
            == round_joins(vs, lens, 1, vs.len() - 1),
        vs.len() == 3 ==> op_pies(outline_ops_spec(vs, lens, bis, round_cap, LineJoin::Round))
            == seq![(vs[1].0, vs[1].1, end_perp(seg(vs, lens, 0)).0, end_perp(seg(vs, lens, 0)).1,
                start_perp(seg(vs, lens, 1)).0, start_perp(seg(vs, lens, 1)).1)],
{
    let join = LineJoin::Round;
    let n = vs.len() as int;
    let l0 = seg(vs, lens, 0);
    let l1 = seg(vs, lens, 1);
    lemma_seg_end(vs, lens, 0);
    let cap0: Seq<OutlineOp> = if round_cap { seq![start_cap(l0)] } else { seq![] };
    if round_cap { lemma_op_pies_one(start_cap(l0)); } else { assert(op_pies(cap0) =~= seq![]); }
    assert(op_pies(cap0) =~= seq![]);
    if n == 3 {
        let l1 = seg(vs, lens, 1);
        let mid = seq![square_line(l0), join_pie(l0, l1), square_line(l1)];
        let cap1: Seq<OutlineOp> = if round_cap { seq![end_cap(l1)] } else { seq![] };
        if round_cap { lemma_op_pies_one(end_cap(l1)); } else { assert(op_pies(cap1) =~= seq![]); }
        assert(op_pies(cap1) =~= seq![]);
        lemma_op_pies_one(square_line(l0));
        lemma_op_pies_one(join_pie(l0, l1));
        lemma_op_pies_one(square_line(l1));
        lemma_op_pies_add(seq![square_line(l0)], seq![join_pie(l0, l1)]);
        lemma_op_pies_add(seq![square_line(l0)] + seq![join_pie(l0, l1)], seq![square_line(l1)]);
        assert(mid =~= seq![square_line(l0)] + seq![join_pie(l0, l1)] + seq![square_line(l1)]);
        lemma_op_pies_add(cap0, mid);
        lemma_op_pies_add(cap0 + mid, cap1);
        assert(three_ops(vs, lens, bis, round_cap, join) == cap0 + mid + cap1);
        assert(op_pies(cap0 + mid + cap1)
            =~= seq![(vs[1].0, vs[1].1, end_perp(l0).0, end_perp(l0).1, start_perp(l1).0, start_perp(l1).1)]);
    } else {
        let l2 = seg(vs, lens, 2);
        let a: u8 = if quad(l0) == quad(l1) { 1u8 } else { 0u8 };
        let b: u8 = if quad(l1) == quad(l2) { 2u8 } else { 0u8 };
        lemma_flag_first_bits(a, b);
        let flags = first_flags(vs, lens, join);
        assert(flags == (a | b));
        let (start, st) = many_start(vs, lens, bis, round_cap, join);
        let first: Seq<OutlineOp> = if (flags & 1u8) == 0 {
            seq![square_line(l0),
                 OutlineOp::Pie(l0.x2, l0.y2, end_perp(l0).0, end_perp(l0).1,
                     (l1.x1 + (l1.y2 - l1.y1)) as i64, (l1.y1 + (l1.x2 - l1.x1)) as i64)]
        } else {
            seq![OutlineOp::Line1(l0, start_perp(l0).0, start_perp(l0).1)]
        };
        assert(start == cap0 + first);
        let head: Seq<(i64, i64, i64, i64, i64, i64)> = if quad(l0) != quad(l1) {
            seq![(vs[1].0, vs[1].1, end_perp(l0).0, end_perp(l0).1,
                (l1.x1 + (l1.y2 - l1.y1)) as i64, (l1.y1 + (l1.x2 - l1.x1)) as i64)]
        } else {
            seq![]
        };
        assert(op_pies(first) =~= head) by {
            if first.len() == 2 {
                lemma_op_pies_one(first[0]);
                lemma_op_pies_one(first[1]);
                lemma_op_pies_add(seq![first[0]], seq![first[1]]);
                assert(seq![first[0]] + seq![first[1]] =~= first);
            } else {
                lemma_op_pies_one(first[0]);
                assert(seq![first[0]] =~= first);
            }
        }
        lemma_op_pies_add(cap0, first);
        assert(st.0 == flags);
        lemma_draw_run_pies(vs, lens, bis, 1, n - 2, st, start);
        let (ops, st2) = draw_run(vs, lens, bis, join, 1, n - 2, st, start);
        let last = seg(vs, lens, n - 2);
        let endops = many_end(vs, lens, round_cap, join, st2);
        let line_end: Seq<OutlineOp> = if (st2.0 & 1u8) == 0 {
            seq![square_line(last)]
        } else {
            seq![OutlineOp::Line2(last, end_perp(last).0, end_perp(last).1)]
        };
        let cap1: Seq<OutlineOp> = if round_cap { seq![end_cap(last)] } else { seq![] };
        if round_cap { lemma_op_pies_one(end_cap(last)); } else { assert(op_pies(cap1) =~= seq![]); }
        assert(op_pies(cap1) =~= seq![]);
        lemma_op_pies_one(line_end[0]);
        assert(seq![line_end[0]] =~= line_end);
        assert(endops == line_end + cap1);
        lemma_op_pies_add(line_end, cap1);
        lemma_op_pies_add(ops, endops);
        assert(op_pies(endops) =~= seq![]);
        assert(round_joins(vs, lens, 1, n - 1) == head + round_joins(vs, lens, 2, n - 1));
        assert(op_pies(ops + endops) =~= round_joins(vs, lens, 1, n - 1));
    }
}

/// Which ends of its line operation `op` cuts, start then end, if it draws
/// a line
pub open spec fn op_cut(op: OutlineOp) -> Seq<(bool, bool)> {
    match op {
        OutlineOp::Line0(_) => seq![(false, false)],
        OutlineOp::Line1(_, _, _) => seq![(true, false)],
        OutlineOp::Line2(_, _, _) => seq![(false, true)],
        OutlineOp::Line3(_, _, _, _, _) => seq![(true, true)],
        _ => seq![],
    }
}

/// Which ends the lines of the operations `ops` cut, in order
pub open spec fn op_cuts(ops: Seq<OutlineOp>) -> Seq<(bool, bool)>
    decreases ops.len(),
{
    if ops.len() == 0 {
        seq![]
    } else {
        op_cuts(ops.drop_last()) + op_cut(ops.last())
    }
}

proof fn lemma_op_cuts_one(op: OutlineOp)
    ensures
        op_cuts(seq![op]) == op_cut(op),
{
    assert(seq![op].drop_last() =~= Seq::<OutlineOp>::empty());
    assert(op_cuts(Seq::<OutlineOp>::empty()) + op_cut(op) =~= op_cut(op));
}

proof fn lemma_op_cuts_add(a: Seq<OutlineOp>, b: Seq<OutlineOp>)
    ensures
        op_cuts(a + b) == op_cuts(a) + op_cuts(b),
    decreases b.len(),
{
    if b.len() == 0 {
        assert(a + b =~= a);
        assert(op_cuts(b) =~= seq![]);
        assert(op_cuts(a) + op_cuts(b) =~= op_cuts(a));
    } else {
        lemma_op_cuts_add(a, b.drop_last());
        assert((a + b).drop_last() =~= a + b.drop_last());
        assert((a + b).last() == b.last());
        assert(op_cuts(a) + op_cuts(b.drop_last()) + op_cut(b.last()) =~= op_cuts(a) + op_cuts(b));
    }
}

/// The join between lines `l1` and `l2` cuts them where they meet: always
/// for the accurate miter join, never for the joins drawn as overlapping
/// lines, and for the miter and round joins exactly where the two lines lie
/// in different diagonal quadrants
pub open spec fn join_cuts(join: LineJoin, l1: LineParameters, l2: LineParameters) -> bool {
    if join == LineJoin::MiterAccurate {
        true
    } else if join == LineJoin::Miter || join == LineJoin::Round {
        quad(l1) != quad(l2)
    } else {
        false
    }
}

/// The ends that segment `j` of an open outline of `n` vertices has cut:
/// its start if it is the first or its join with the segment before cuts,
/// its end if it is the last or its join with the segment after cuts
pub open spec fn seg_cut(vs: Seq<(i64, i64)>, lens: Seq<i64>, join: LineJoin, j: int) -> (bool, bool) {
    let n = vs.len() as int;
    (j == 0 || join_cuts(join, seg(vs, lens, j - 1), seg(vs, lens, j)),
     j == n - 2 || join_cuts(join, seg(vs, lens, j), seg(vs, lens, j + 1)))
}

/// The cut ends of segments `i .. end`, in order
pub open spec fn seg_cuts(vs: Seq<(i64, i64)>, lens: Seq<i64>, join: LineJoin, i: int, end: int)
                          -> Seq<(bool, bool)> {
    Seq::new((end - i) as nat, |k: int| seg_cut(vs, lens, join, i + k))
}

/// The flags of state `st` tell which joins of line `i` cut it
pub open spec fn flags_cut(vs: Seq<(i64, i64)>, lens: Seq<i64>, join: LineJoin, i: int, st: JoinState) -> bool {
    &&& st.0 < 4
    &&& ((st.0 & 1u8) == 0) == join_cuts(join, seg(vs, lens, i - 1), seg(vs, lens, i))
    &&& ((st.0 & 2u8) == 0) == join_cuts(join, seg(vs, lens, i), seg(vs, lens, i + 1))
}

proof fn lemma_flag_values(f: u8)
    by (bit_vector)
    requires
        f < 4,
    ensures
        f == 0 <==> ((f & 1u8) == 0 && (f & 2u8) == 0),
        f == 1 <==> ((f & 1u8) != 0 && (f & 2u8) == 0),
        f == 2 <==> ((f & 1u8) == 0 && (f & 2u8) != 0),
        f == 3 <==> ((f & 1u8) != 0 && (f & 2u8) != 0),
{
}

proof fn lemma_flag_shift_low(f: u8, q: u8)
    by (bit_vector)
    requires
        f < 4,
        q == 0 || q == 2,
    ensures
        (((f >> 1u8) | q) & 1u8 == 0) == ((f & 2u8) == 0),
{
}

proof fn lemma_draw_run_cuts(vs: Seq<(i64, i64)>, lens: Seq<i64>, bis: Seq<(i64, i64)>, join: LineJoin, i: int,
                             end: int, st: JoinState, acc: Seq<OutlineOp>)
    requires
        1 <= i <= end,
        end + 2 <= vs.len(),
        flags_cut(vs, lens, join, i, st),
    ensures
        op_cuts(draw_run(vs, lens, bis, join, i, end, st, acc).0) == op_cuts(acc) + seg_cuts(vs, lens, join, i, end),
        flags_cut(vs, lens, join, end, draw_run(vs, lens, bis, join, i, end, st, acc).1),
    decreases end - i,
{
    if i >= end {
        assert(seg_cuts(vs, lens, join, i, end) =~= seq![]);
        assert(op_cuts(acc) + seg_cuts(vs, lens, join, i, end) =~= op_cuts(acc));
    } else {
        let ops = draw_line_ops(vs, lens, join, i, st);
        let st2 = draw_line_state(vs, lens, bis, join, i, st);
        let q: u8 = if quad(seg(vs, lens, i + 1)) == quad(seg(vs, lens, i + 2)) { 2u8 } else { 0u8 };
        lemma_flag_shift_bits(st.0, q);
        lemma_flag_shift_low(st.0, q);
        lemma_flag_values(0u8);
        lemma_flag_values(3u8);
        assert(flags_cut(vs, lens, join, i + 1, st2));
        lemma_draw_run_cuts(vs, lens, bis, join, i + 1, end, st2, acc + ops);
        lemma_op_cuts_add(acc, ops);
        let line = ops[0];
        let rest = ops.subrange(1, ops.len() as int);
        assert(ops =~= seq![line] + rest);
        lemma_op_cuts_add(seq![line], rest);
        lemma_op_cuts_one(line);
        lemma_flag_values(st.0);
        assert(op_cut(line) =~= seq![seg_cut(vs, lens, join, i)]);
        if rest.len() == 1 {
            lemma_op_cuts_one(rest[0]);
            assert(rest =~= seq![rest[0]]);
        } else {
            assert(rest =~= Seq::<OutlineOp>::empty());
        }
        assert(op_cuts(rest) =~= seq![]);
        assert(seq![seg_cut(vs, lens, join, i)] + seg_cuts(vs, lens, join, i + 1, end)
            =~= seg_cuts(vs, lens, join, i, end));
        assert(op_cuts(acc) + op_cuts(ops) + seg_cuts(vs, lens, join, i + 1, end)
            =~= op_cuts(acc) + seg_cuts(vs, lens, join, i, end));
    }
}

/// The cut ends of the lines of an outline of four or more vertices
#[verifier::rlimit(60)]
#[verifier::spinoff_prover]
proof fn lemma_outline_cuts_many(vs: Seq<(i64, i64)>, lens: Seq<i64>, bis: Seq<(i64, i64)>, round_cap: bool,
                                 join: LineJoin)
    requires
        vs.len() >= 4,
        lens.len() == vs.len(),
        bis.len() == vs.len(),
    ensures
        op_cuts(outline_ops_spec(vs, lens, bis, round_cap, join)) == seg_cuts(vs, lens, join, 0, vs.len() - 1),
{
    let n = vs.len() as int;
    let l0 = seg(vs, lens, 0);
    let cap0: Seq<OutlineOp> = if round_cap { seq![start_cap(l0)] } else { seq![] };
    if round_cap { lemma_op_cuts_one(start_cap(l0)); } else { assert(op_cuts(cap0) =~= seq![]); }
    assert(op_cuts(cap0) =~= seq![]);
    let l1 = seg(vs, lens, 1);
    let l2 = seg(vs, lens, 2);
    let qa = quad(l0) == quad(l1);
    let qb = quad(l1) == quad(l2);
    let a: u8 = if qa { 1u8 } else { 0u8 };
    let b: u8 = if qb { 2u8 } else { 0u8 };
    lemma_flag_first_bits(a, b);
    lemma_flag_values(0u8);
    lemma_flag_values(3u8);
    let flags = first_flags(vs, lens, join);
    let (start, st) = many_start(vs, lens, bis, round_cap, join);
    assert(st.0 == flags);
    assert(flags_cut(vs, lens, join, 1, st));
    let first: Seq<OutlineOp> = if (flags & 1u8) == 0 {
        if join == LineJoin::Round {
            seq![square_line(l0),
                 OutlineOp::Pie(l0.x2, l0.y2, end_perp(l0).0, end_perp(l0).1,
                     (l1.x1 + (l1.y2 - l1.y1)) as i64, (l1.y1 + (l1.x2 - l1.x1)) as i64)]
        } else {
            seq![OutlineOp::Line3(l0, start_perp(l0).0, start_perp(l0).1, bis[1].0, bis[1].1)]
        }
    } else {
        seq![OutlineOp::Line1(l0, start_perp(l0).0, start_perp(l0).1)]
    };
    assert(start == cap0 + first);
    assert(op_cuts(first) =~= seq![seg_cut(vs, lens, join, 0)]) by {
        if first.len() == 2 {
            lemma_op_cuts_one(first[0]);
            lemma_op_cuts_one(first[1]);
            lemma_op_cuts_add(seq![first[0]], seq![first[1]]);
            assert(seq![first[0]] + seq![first[1]] =~= first);
        } else {
            lemma_op_cuts_one(first[0]);
            assert(seq![first[0]] =~= first);
        }
    }
    lemma_op_cuts_add(cap0, first);
    lemma_draw_run_cuts(vs, lens, bis, join, 1, n - 2, st, start);
    let (ops, st2) = draw_run(vs, lens, bis, join, 1, n - 2, st, start);
    let last = seg(vs, lens, n - 2);
    let endops = many_end(vs, lens, round_cap, join, st2);
    let line_end: Seq<OutlineOp> = if (st2.0 & 1u8) == 0 {
        if join == LineJoin::Round {
            seq![square_line(last)]
        } else {
            seq![OutlineOp::Line3(last, st2.1, st2.2, end_perp(last).0, end_perp(last).1)]
        }
    } else {
        seq![OutlineOp::Line2(last, end_perp(last).0, end_perp(last).1)]
    };
    let cap1: Seq<OutlineOp> = if round_cap { seq![end_cap(last)] } else { seq![] };
    if round_cap { lemma_op_cuts_one(end_cap(last)); } else { assert(op_cuts(cap1) =~= seq![]); }
    assert(op_cuts(cap1) =~= seq![]);
    lemma_op_cuts_one(line_end[0]);
    assert(seq![line_end[0]] =~= line_end);
    assert(endops == line_end + cap1);
    lemma_op_cuts_add(line_end, cap1);
    lemma_op_cuts_add(ops, endops);
    assert(op_cuts(endops) =~= seq![seg_cut(vs, lens, join, n - 2)]);
    assert(seq![seg_cut(vs, lens, join, 0)] + seg_cuts(vs, lens, join, 1, n - 2)
        + seq![seg_cut(vs, lens, join, n - 2)] =~= seg_cuts(vs, lens, join, 0, n - 1));
}

/// Each line of an open outline of four or more vertices has its start cut
/// where it is the first line or its join with the line before cuts, and
/// its end cut where it is the last line or its join with the line after
/// cuts (see `join_cuts`); outlines of two or three vertices cut every line
/// at both ends
#[verifier::rlimit(40)]
pub proof fn lemma_outline_cuts(vs: Seq<(i64, i64)>, lens: Seq<i64>, bis: Seq<(i64, i64)>, round_cap: bool,
                                join: LineJoin)
    requires
        vs.len() >= 2,
        lens.len() == vs.len(),
        bis.len() == vs.len(),
    ensures
        vs.len() >= 4 ==> op_cuts(outline_ops_spec(vs, lens, bis, round_cap, join))
            == seg_cuts(vs, lens, join, 0, vs.len() - 1),
        vs.len() <= 3 ==> op_cuts(outline_ops_spec(vs, lens, bis, round_cap, join))
            == Seq::new((vs.len() - 1) as nat, |k: int| (true, true)),
{
    let n = vs.len() as int;
    let l0 = seg(vs, lens, 0);
    let cap0: Seq<OutlineOp> = if round_cap { seq![start_cap(l0)] } else { seq![] };
    if round_cap { lemma_op_cuts_one(start_cap(l0)); } else { assert(op_cuts(cap0) =~= seq![]); }
    assert(op_cuts(cap0) =~= seq![]);
    if n == 2 {
        let cap1: Seq<OutlineOp> = if round_cap { seq![end_cap(l0)] } else { seq![] };
        if round_cap { lemma_op_cuts_one(end_cap(l0)); } else { assert(op_cuts(cap1) =~= seq![]); }
        assert(op_cuts(cap1) =~= seq![]);
        lemma_op_cuts_one(square_line(l0));
        lemma_op_cuts_add(cap0, seq![square_line(l0)]);
        lemma_op_cuts_add(cap0 + seq![square_line(l0)], cap1);
        assert(two_ops(vs, lens, round_cap) == cap0 + seq![square_line(l0)] + cap1);
        assert(op_cuts(cap0 + seq![square_line(l0)] + cap1) =~= Seq::new(1, |k: int| (true, true)));
    } else if n == 3 {
        let l1 = seg(vs, lens, 1);
        let b = bis[1];
        let mid: Seq<OutlineOp> = if join == LineJoin::Round {
            seq![square_line(l0), join_pie(l0, l1), square_line(l1)]
        } else {
            seq![OutlineOp::Line3(l0, start_perp(l0).0, start_perp(l0).1, b.0, b.1),
                 OutlineOp::Line3(l1, b.0, b.1, end_perp(l1).0, end_perp(l1).1)]
        };
        let cap1: Seq<OutlineOp> = if round_cap { seq![end_cap(l1)] } else { seq![] };
        if round_cap { lemma_op_cuts_one(end_cap(l1)); } else { assert(op_cuts(cap1) =~= seq![]); }
        assert(op_cuts(cap1) =~= seq![]);
        assert(op_cuts(mid) =~= seq![(true, true), (true, true)]) by {
            lemma_op_cuts_one(mid[0]);
            lemma_op_cuts_one(mid[1]);
            lemma_op_cuts_add(seq![mid[0]], seq![mid[1]]);
            if mid.len() == 3 {
                lemma_op_cuts_one(mid[2]);
                lemma_op_cuts_add(seq![mid[0]] + seq![mid[1]], seq![mid[2]]);
                assert(mid =~= seq![mid[0]] + seq![mid[1]] + seq![mid[2]]);
            } else {
                assert(mid =~= seq![mid[0]] + seq![mid[1]]);
            }
        }
        lemma_op_cuts_add(cap0, mid);
        lemma_op_cuts_add(cap0 + mid, cap1);
        assert(three_ops(vs, lens, bis, round_cap, join) == cap0 + mid + cap1);
        assert(op_cuts(cap0 + mid + cap1) =~= Seq::new(2, |k: int| (true, true)));
    } else {
        lemma_outline_cuts_many(vs, lens, bis, round_cap, join);
    }
}

} // verus!

verus! {

/// The last step drawing a line without end cuts reaches the pixel of its
/// end point along the major axis
pub proof fn lemma_aa0_last_position(lp: LineParameters, w: i64, ws: Seq<AA0>)
    requires
        aa0_walk(lp, w, ws),
        ws.len() == aa0_count(lp) + 1,
        lp.wf(),
    ensures
        !lp.vertical ==> ws.last().li.x == lp.x2 / 256,
        lp.vertical ==> ws.last().li.y == lp.y2 / 256,
{
    let n = aa0_count(lp);
    lemma_aa0_walk_position(lp, w, ws, n);
    let inc = lp.inc as int;
    if lp.vertical {
        let d = lp.y2 / 256 - lp.y1 / 256;
        if lp.y2 > lp.y1 {
            assert(lp.y2 / 256 >= lp.y1 / 256) by (nonlinear_arith) requires lp.y2 > lp.y1;
            assert(inc == 1 && n == d);
        } else {
            assert(lp.y2 / 256 <= lp.y1 / 256) by (nonlinear_arith) requires lp.y2 <= lp.y1;
            assert(inc == -1 && n == -d);
        }
        assert(n * inc == d) by (nonlinear_arith) requires (inc == 1 && n == d) || (inc == -1 && n == -d);
    } else {
        let d = lp.x2 / 256 - lp.x1 / 256;
        if lp.x2 > lp.x1 {
            assert(lp.x2 / 256 >= lp.x1 / 256) by (nonlinear_arith) requires lp.x2 > lp.x1;
            assert(inc == 1 && n == d);
        } else {
            assert(lp.x2 / 256 <= lp.x1 / 256) by (nonlinear_arith) requires lp.x2 <= lp.x1;
            assert(inc == -1 && n == -d);
        }
        assert(n * inc == d) by (nonlinear_arith) requires (inc == 1 && n == d) || (inc == -1 && n == -d);
    }
}

/// Drawing a line without end cuts of `n > 0` pixels along its major axis
/// takes exactly `n` steps; the `k`-th step draws one span, at the column
/// `lp.x1 / 256 + k * inc` (the row `lp.y1 / 256 + k * inc` for a mostly
/// vertical line), and asks for another exactly when `k < n`; the last
/// step draws at the end point's pixel
pub proof fn lemma_aa0_run_law<T: Pixel>(lp: LineParameters, w: i64, p: Seq<u8>, c: Rgba8,
                                         before: RenderingBase<T>, after: RenderingBase<T>)
    requires
        aa0_run(lp, w, p, c, before, after),
        aa0_count(lp) > 0,
        lp.wf(),
    ensures
        exists|ws: Seq<AA0>, imgs: Seq<RenderingBase<T>>| {
            &&& ws.len() == aa0_count(lp) + 1
            &&& imgs.len() == ws.len()
            &&& imgs[0] == before
            &&& imgs.last() == after
            &&& forall|k: int| #![trigger ws[k]] 1 <= k <= aa0_count(lp) ==> {
                &&& ws[k].li.step == k
                &&& (ws[k].li.step < ws[k].li.count) == (k < aa0_count(lp))
                &&& (!lp.vertical ==> ws[k].li.x == lp.x1 / 256 + k * lp.inc)
                &&& (lp.vertical ==> ws[k].li.y == lp.y1 / 256 + k * lp.inc)
                &&& aa0_drawn(ws[k - 1], ws[k], imgs[k - 1], imgs[k], c, lp.vertical)
            }
            &&& (!lp.vertical ==> ws.last().li.x == lp.x2 / 256)
            &&& (lp.vertical ==> ws.last().li.y == lp.y2 / 256)
        },
{
    let n = aa0_count(lp);
    let (ws, imgs) = choose|ws: Seq<AA0>, imgs: Seq<RenderingBase<T>>| {
        &&& aa0_walk(lp, w, ws)
        &&& ws.len() == n + 1
        &&& imgs.len() == n + 1
        &&& imgs[0] == before
        &&& imgs[n] == after
        &&& #[trigger] aa0_chain(ws, imgs, p, c, lp.vertical, n)
    };
    assert forall|k: int| #![trigger ws[k]] 1 <= k <= n implies {
        &&& ws[k].li.step == k
        &&& (ws[k].li.step < ws[k].li.count) == (k < n)
        &&& (!lp.vertical ==> ws[k].li.x == lp.x1 / 256 + k * lp.inc)
        &&& (lp.vertical ==> ws[k].li.y == lp.y1 / 256 + k * lp.inc)
        &&& aa0_drawn(ws[k - 1], ws[k], imgs[k - 1], imgs[k], c, lp.vertical)
    } by {
        lemma_aa0_walk_position(lp, w, ws, k);
        lemma_aa0_walk_position(lp, w, ws, 0);
        let j = k - 1;
        assert(aa0_drawn(ws[j], ws[j + 1], imgs[j], imgs[j + 1], c, lp.vertical));
    }
    lemma_aa0_last_position(lp, w, ws);
}

} // verus!
