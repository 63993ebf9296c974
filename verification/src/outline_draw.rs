//! Drawing the operations of an outline with the anti-aliased renderer

use vstd::prelude::*;
use crate::Pixel;
use crate::base::RenderingBase;
use crate::color::Rgba8;
use crate::outline_aa::{OutlineOp, RendererOutlineAA, line0_ok, line0_drawn};
use crate::outline_cut::{cut_line_ok, cut_line_drawn, cut3_line_ok, cut3_line_drawn};
use crate::outline_dot::{dot_ok, dot_drawn};

verus! {

/// Operation `op` can be drawn with line profile `p` for a line `w` wide
pub open spec fn op_ok(op: OutlineOp, w: i64, p: Seq<u8>) -> bool {
    match op {
        OutlineOp::Line0(l) => line0_ok(l, w, p),
        OutlineOp::Line1(l, sx, sy) => cut_line_ok(l, sx, sy, w, false, p),
        OutlineOp::Line2(l, ex, ey) => cut_line_ok(l, ex, ey, w, true, p),
        OutlineOp::Line3(l, sx, sy, ex, ey) => cut3_line_ok(l, sx, sy, ex, ey, w, p),
        OutlineOp::Semidot(start, xc1, yc1, xc2, yc2) => dot_ok((false, start, xc1, yc1, xc2, yc2, 0, 0), w, p),
        OutlineOp::Pie(xc, yc, x1, y1, x2, y2) => dot_ok((true, false, xc, yc, x1, y1, x2, y2), w, p),
    }
}

/// Image `after` is image `before` after operation `op` is drawn in color
/// `c` with line profile `p` for a line `w` wide
pub open spec fn op_drawn<T: Pixel>(op: OutlineOp, w: i64, p: Seq<u8>, c: Rgba8, before: RenderingBase<T>,
                                    after: RenderingBase<T>) -> bool {
    match op {
        OutlineOp::Line0(l) => line0_drawn(l, w, p, c, before, after),
        OutlineOp::Line1(l, sx, sy) => cut_line_drawn(l, sx, sy, w, false, p, c, before, after),
        OutlineOp::Line2(l, ex, ey) => cut_line_drawn(l, ex, ey, w, true, p, c, before, after),
        OutlineOp::Line3(l, sx, sy, ex, ey) => cut3_line_drawn(l, sx, sy, ex, ey, w, p, c, before, after),
        OutlineOp::Semidot(start, xc1, yc1, xc2, yc2) =>
            dot_drawn((false, start, xc1, yc1, xc2, yc2, 0, 0), p, w, c, before, after),
        OutlineOp::Pie(xc, yc, x1, y1, x2, y2) => dot_drawn((true, false, xc, yc, x1, y1, x2, y2), p, w, c, before, after),
    }
}

/// Image `after` is image `before` after the operations `ops` are drawn in
/// turn: a chain of images, each the one before with the next operation
/// drawn
pub open spec fn ops_drawn<T: Pixel>(ops: Seq<OutlineOp>, w: i64, p: Seq<u8>, c: Rgba8, before: RenderingBase<T>,
                                     after: RenderingBase<T>) -> bool {
    exists|imgs: Seq<RenderingBase<T>>| {
        &&& imgs.len() == ops.len() + 1
        &&& imgs[0] == before
        &&& imgs.last() == after
        &&& #[trigger] ops_chain(ops, imgs, w, p, c)
    }
}

/// Each image of `imgs` is the one before with the next operation drawn
pub open spec fn ops_chain<T: Pixel>(ops: Seq<OutlineOp>, imgs: Seq<RenderingBase<T>>, w: i64, p: Seq<u8>,
                                     c: Rgba8) -> bool {
    forall|k: int| 0 <= k < ops.len() ==> #[trigger] op_drawn(ops[k], w, p, c, imgs[k], imgs[k + 1])
}

impl<'a, T: Pixel> RendererOutlineAA<'a, T> {
    /// Draw one operation of an outline
    pub fn draw_op(&mut self, op: &OutlineOp)
        requires
            old(self).ren.wf(),
            op_ok(*op, old(self).subpixel_width, old(self).profile@),
        ensures
            final(self).ren.wf(),
            final(self).color == old(self).color,
            final(self).profile@ == old(self).profile@,
            final(self).subpixel_width == old(self).subpixel_width,
            op_drawn(*op, old(self).subpixel_width, old(self).profile@, old(self).color, *old(self).ren,
                *final(self).ren),
    {
        match op {
            OutlineOp::Line0(l) => self.line0(l),
            OutlineOp::Line1(l, sx, sy) => self.line1(l, *sx, *sy),
            OutlineOp::Line2(l, ex, ey) => self.line2(l, *ex, *ey),
            OutlineOp::Line3(l, sx, sy, ex, ey) => self.line3(l, *sx, *sy, *ex, *ey),
            OutlineOp::Semidot(start, xc1, yc1, xc2, yc2) => self.semidot(*start, *xc1, *yc1, *xc2, *yc2),
            OutlineOp::Pie(xc, yc, x1, y1, x2, y2) => self.pie(*xc, *yc, *x1, *y1, *x2, *y2),
        }
    }

    /// Draw the operations of an outline in turn
    pub fn draw_ops(&mut self, ops: &[OutlineOp])
        requires
            old(self).ren.wf(),
            forall|i: int| 0 <= i < ops@.len() ==> op_ok(#[trigger] ops@[i], old(self).subpixel_width,
                old(self).profile@),
        ensures
            final(self).ren.wf(),
            final(self).color == old(self).color,
            final(self).profile@ == old(self).profile@,
            final(self).subpixel_width == old(self).subpixel_width,
            ops_drawn(ops@, old(self).subpixel_width, old(self).profile@, old(self).color, *old(self).ren,
                *final(self).ren),
    {
        let ghost w = self.subpixel_width;
        let ghost p = self.profile@;
        let ghost c = self.color;
        let ghost mut imgs: Seq<RenderingBase<T>> = seq![*self.ren];
        let mut i: usize = 0;
        while i < ops.len()
            invariant
                i <= ops@.len(),
                imgs.len() == i + 1,
                imgs[0] == *old(self).ren,
                imgs.last() == *self.ren,
                ops_chain(ops@.subrange(0, i as int), imgs, w, p, c),
                self.ren.wf(),
                self.color == c,
                self.profile@ == p,
                self.subpixel_width == w,
                w == old(self).subpixel_width,
                p == old(self).profile@,
                forall|j: int| 0 <= j < ops@.len() ==> op_ok(#[trigger] ops@[j], w, p),
            decreases ops.len() - i,
        {
            let ghost img_a = *self.ren;
            self.draw_op(&ops[i]);
            proof {
                let imgs0 = imgs;
                imgs = imgs.push(*self.ren);
                let pre = ops@.subrange(0, i as int);
                let now = ops@.subrange(0, i + 1);
                assert forall|k: int| 0 <= k < now.len() implies #[trigger] op_drawn(now[k], w, p, c, imgs[k],
                    imgs[k + 1]) by {
                    if k < i {
                        assert(now[k] == pre[k]);
                        assert(op_drawn(pre[k], w, p, c, imgs0[k], imgs0[k + 1]));
                    } else {
                        assert(now[k] == ops@[i as int]);
                        assert(imgs[k] == img_a && imgs[k + 1] == *self.ren);
                    }
                }
            }
            i += 1;
        }
        assert(ops@.subrange(0, ops@.len() as int) =~= ops@);
        assert(ops_chain(ops@, imgs, w, p, c));
    }
}

} // verus!

verus! {

use crate::line_interp::mr;
use crate::outline_dot::dot_cover;

/// Each operation draws what the renderer call it names draws: a line
/// with no end cut as `line0`, a line cut at its start as `line1` (cut at
/// the start side), at its end as `line2` (cut at the end side), at both
/// as `line3`; a round cap as `semidot` with the operation's own side (the
/// start side for a start cap, the end side for an end cap); a round join
/// as `pie`
pub proof fn lemma_draw_op_dots<T: Pixel>(op: OutlineOp, w: i64, p: Seq<u8>, c: Rgba8, before: RenderingBase<T>,
                                          after: RenderingBase<T>)
    ensures
        op matches OutlineOp::Line0(l) ==>
            (op_drawn(op, w, p, c, before, after) <==> line0_drawn(l, w, p, c, before, after)),
        op matches OutlineOp::Line1(l, sx, sy) ==>
            (op_drawn(op, w, p, c, before, after) <==> cut_line_drawn(l, sx, sy, w, false, p, c, before, after)),
        op matches OutlineOp::Line2(l, ex, ey) ==>
            (op_drawn(op, w, p, c, before, after) <==> cut_line_drawn(l, ex, ey, w, true, p, c, before, after)),
        op matches OutlineOp::Line3(l, sx, sy, ex, ey) ==>
            (op_drawn(op, w, p, c, before, after) <==> cut3_line_drawn(l, sx, sy, ex, ey, w, p, c, before, after)),
        op matches OutlineOp::Semidot(start, xc1, yc1, xc2, yc2) ==>
            (op_drawn(op, w, p, c, before, after)
                <==> dot_drawn((false, start, xc1, yc1, xc2, yc2, 0, 0), p, w, c, before, after)),
        op matches OutlineOp::Pie(xc, yc, x1, y1, x2, y2) ==>
            (op_drawn(op, w, p, c, before, after)
                <==> dot_drawn((true, false, xc, yc, x1, y1, x2, y2), p, w, c, before, after)),
{
}

/// Which side of a round cap the center of the pixel `i` places right of
/// (`x`,`y`) lies on: the cross product, at medium resolution, of its offset
/// from the cap's center (`xc1`,`yc1`) with the direction toward
/// (`xc2`,`yc2`); positive on the start side
pub open spec fn cap_side(xc1: int, yc1: int, xc2: int, yc2: int, x: int, y: int, i: int) -> int {
    let cx = (x + i) * 256 + 128;
    let cy = y * 256 + 128;
    (mr(cx) - mr(xc1)) * (mr(yc2) - mr(yc1)) - (mr(cy) - mr(yc1)) * (mr(xc2) - mr(xc1))
}

/// A round cap covers pixels on its own side only: a start cap only pixels
/// whose centers lie on the start side of the line through its center
/// toward (`xc2`,`yc2`), an end cap only pixels on the other side
pub proof fn lemma_cap_side(start: bool, xc1: i64, yc1: i64, xc2: i64, yc2: i64, p: Seq<u8>, w: int, x: int,
                            y: int, i: int)
    ensures
        dot_cover((false, start, xc1, yc1, xc2, yc2, 0, 0), p, w, x, y, i) != 0 ==>
            (if start { cap_side(xc1 as int, yc1 as int, xc2 as int, yc2 as int, x, y, i) > 0 }
             else { cap_side(xc1 as int, yc1 as int, xc2 as int, yc2 as int, x, y, i) <= 0 }),
{
    let a = x * 256 + 128;
    assert(mr(a + i * 256) == mr(a) + i * 16) by {
        assert(mr(a) * 16 <= a < mr(a) * 16 + 16);
        crate::fixed::lemma_floor_unique(a + i * 256, 16, mr(a) + i * 16);
    }
    assert((x + i) * 256 + 128 == a + i * 256) by (nonlinear_arith) requires a == x * 256 + 128;
    let dx = mr(xc2 as int) - mr(xc1 as int);
    let dy = mr(yc2 as int) - mr(yc1 as int);
    let u = mr(a) - mr(xc1 as int);
    let v = mr(y * 256 + 128) - mr(yc1 as int);
    assert((u - dx) * dy - (v - dy) * dx + i * (dy * 16) == (u + i * 16) * dy - v * dx) by (nonlinear_arith);
}

} // verus!
