//! Anti-aliased outline lines cut at one end by a bisectrix

use vstd::prelude::*;
use crate::{Pixel, in_aux};
use crate::base::{RenderingBase, solid_hspan_done, solid_vspan_done};
use crate::color::Rgba8;
use crate::line_interp::{LineParameters, LineInterpolatorAA, DistanceInterpolator, DistanceInterpolator2,
                         DistanceInterpolator3, AA1, AA3, aa1_start, aa3_start, first_above, count_above,
                         count_inside, spread_fits, WIDTH_LIMIT};
use crate::outline_aa::{RendererOutlineAA, halves, profile_queryable, profile_spread, lemma_profile};
use crate::render::LINE_MAX_LENGTH;

verus! {

/// The state of an interpolator along a line cut at one end: the part that
/// walks the line and the distances to the line and to the cut
pub type CutState = (LineInterpolatorAA, DistanceInterpolator2);

/// `b` is `a` after one step, along rows if `vertical`, else along columns;
/// the coverages aside
pub open spec fn cut_next(a: CutState, b: CutState, vertical: bool) -> bool {
    &&& b.0.li.fields() == a.0.li.inc_spec()
    &&& b.0.step == a.0.step + 1
    &&& b.0.dist == a.0.dist
    &&& b.0.lp == a.0.lp
    &&& b.0.len == a.0.len
    &&& b.0.count == a.0.count
    &&& b.0.width == a.0.width
    &&& b.0.max_extent == a.0.max_extent
    &&& b.0.tables_ok()
    &&& if vertical {
        &&& b.0.y == a.0.y + a.0.lp.inc
        &&& b.0.x == a.0.x_after_ver()
        &&& b.0.old_x == b.0.x
        &&& b.0.old_y == a.0.old_y
        &&& b.1 == a.0.di_after_ver(a.1)
    } else {
        &&& b.0.x == a.0.x + a.0.lp.inc
        &&& b.0.y == a.0.y_after_hor()
        &&& b.0.old_y == b.0.y
        &&& b.0.old_x == a.0.old_x
        &&& b.1 == a.0.di_after_hor(a.1)
    }
}

/// The distance of the next pixel from the line, as a step from `a` finds it
pub open spec fn cut_s1(a: CutState, vertical: bool) -> int {
    if vertical { a.0.s1_ver(a.1) } else { a.0.s1_hor(a.1) }
}

/// A step from `a` can be taken with the coverages of line profile `p`
pub open spec fn cut_pre(a: CutState, p: Seq<u8>, vertical: bool) -> bool {
    let s1 = cut_s1(a, vertical);
    let d = if vertical { a.0.di_after_ver(a.1) } else { a.0.di_after_hor(a.1) };
    &&& a.0.ready()
    &&& a.1.step_ok()
    &&& a.0.spread_ends(s1)
    &&& profile_queryable(p, a.0.dist@, a.0.width as int, s1)
    &&& spread_fits(d.dist_start as int, d.dx_start as int, d.dy_start as int)
}

/// The pixel `t` places from the center of the spread of `b` lies on the
/// drawn side of the cut: past the start line, or before the end line if
/// `end`
pub open spec fn cut_inside(b: CutState, t: int, vertical: bool, end: bool) -> bool {
    let ds = b.1.dist_start as int;
    let d = if vertical { b.1.dy_start as int } else { b.1.dx_start as int };
    let v = if vertical { ds + t * d } else { ds - t * d };
    if end { v > 0 } else { v <= 0 }
}

/// The step from `a` to `b` asks for another: steps remain, and for a line
/// cut at its end, some pixel of the spread was before the end line
pub open spec fn cut_more(a: CutState, b: CutState, vertical: bool, end: bool) -> bool {
    let s1 = cut_s1(a, vertical);
    let w = a.0.width as int;
    let k1 = first_above(b.0.dist@, w + s1, 1);
    let k2 = first_above(b.0.dist@, w - s1, 1);
    let de = b.1.dist_start as int;
    let d = if vertical { b.1.dy_start as int } else { b.1.dx_start as int };
    let npix = (if de > 0 { 1int } else { 0 }) + if vertical {
        count_above(de, d, k1 - 1) + count_above(de, -d, k2 - 1)
    } else {
        count_above(de, -d, k1 - 1) + count_above(de, d, k2 - 1)
    };
    if end { npix != 0 && b.0.step < b.0.count } else { b.0.step < b.0.count }
}

/// The coverages of the step from `a` to `b`: those of line profile `p` at
/// the distances of the spread, on the drawn side of the cut, else none
pub open spec fn cut_covers(a: CutState, b: CutState, p: Seq<u8>, vertical: bool, end: bool) -> bool {
    let s1 = cut_s1(a, vertical);
    let w = a.0.width as int;
    let k1 = first_above(a.0.dist@, w + s1, 1);
    let k2 = first_above(a.0.dist@, w - s1, 1);
    forall|t: int| -k2 < t < k1 ==> #[trigger] b.0.covers@[66 + t]
        == (if cut_inside(b, t, vertical, end) { profile_spread(p, a.0.dist@, s1, t) } else { 0 })
}

/// Image `after` is image `before` after the step from `a` to `b` drew the
/// spread of `b` in color `c`
pub open spec fn cut_drawn<T: Pixel>(a: CutState, b: CutState, before: RenderingBase<T>,
                                     after: RenderingBase<T>, c: Rgba8, vertical: bool) -> bool {
    let s1 = cut_s1(a, vertical);
    let w = a.0.width as int;
    let k1 = first_above(a.0.dist@, w + s1, 1);
    let k2 = first_above(a.0.dist@, w - s1, 1);
    let covers = b.0.covers@.subrange(67 - k2, 132);
    let len = (k1 + k2 - 1) as i64 as int;
    if vertical {
        solid_hspan_done(&before, &after, (b.0.x - k2 + 1) as i64 as int, b.0.y as int, len, c, covers)
    } else {
        solid_vspan_done(&before, &after, b.0.x as int, (b.0.y - k2 + 1) as i64 as int, len, c, covers)
    }
}

/// `a` is an interpolator along `lp` for a line `w` wide, as `AA1::new` makes
/// it with its start cut toward (`x`,`y`), or as `AA2::new` makes it with its
/// end cut toward (`x`,`y`) if `end`
pub open spec fn cut_begin(lp: LineParameters, x: i64, y: i64, w: i64, end: bool, a: CutState) -> bool {
    if end {
        let f = LineInterpolatorAA::line_dda(lp);
        &&& a.0.setup(lp, w)
        &&& a.0.x == lp.x1 / 256
        &&& a.0.y == lp.y1 / 256
        &&& a.0.old_x == a.0.x
        &&& a.0.old_y == a.0.y
        &&& a.0.step == -a.0.max_extent
        &&& a.0.li.fields() == (f.0, f.1, f.2, f.3 - f.0, f.4)
        &&& a.1 == DistanceInterpolator2::new_spec(lp.x1, lp.y1, lp.x2, lp.y2, x, y,
                ((lp.x1 / 256) * 256) as i64, ((lp.y1 / 256) * 256) as i64, false)
    } else {
        &&& aa1_start(lp, x, y, w, AA1 { di: a.1, li: a.0 }, -a.0.step)
        &&& a.0.setup(lp, w)
    }
}

/// `ws` are the states of an interpolator along `lp` from its start, one
/// step apart
pub open spec fn cut_walk(lp: LineParameters, x: i64, y: i64, w: i64, end: bool, ws: Seq<CutState>) -> bool {
    &&& ws.len() >= 1
    &&& cut_begin(lp, x, y, w, end, ws[0])
    &&& forall|k: int| 0 <= k < ws.len() - 1 ==> #[trigger] cut_next(ws[k], ws[k + 1], lp.vertical)
}

/// Every step of the walk `ws` asked for another
pub open spec fn cut_all_more(ws: Seq<CutState>, vertical: bool, end: bool, n: int) -> bool {
    forall|k: int| 0 <= k < n ==> #[trigger] cut_more(ws[k], ws[k + 1], vertical, end)
}

/// Every step that drawing `lp` cut toward (`x`,`y`) takes can be taken
/// with line profile `p`
pub open spec fn cut_walk_ok(lp: LineParameters, x: i64, y: i64, w: i64, end: bool, p: Seq<u8>) -> bool {
    forall|ws: Seq<CutState>| #[trigger] cut_walk(lp, x, y, w, end, ws)
        && cut_all_more(ws, lp.vertical, end, ws.len() - 1) ==> cut_pre(ws.last(), p, lp.vertical)
}

/// Each of the first `n` steps of `ws` drew its spread, from image `imgs[k]`
/// to image `imgs[k + 1]`, with the coverages of line profile `p`
pub open spec fn cut_chain<T: Pixel>(ws: Seq<CutState>, imgs: Seq<RenderingBase<T>>, p: Seq<u8>, c: Rgba8,
                                     vertical: bool, end: bool, n: int) -> bool {
    forall|k: int| 0 <= k < n ==> {
        &&& #[trigger] cut_drawn(ws[k], ws[k + 1], imgs[k], imgs[k + 1], c, vertical)
        &&& cut_covers(ws[k], ws[k + 1], p, vertical, end)
    }
}

/// Image `after` is image `before` after `lp` is drawn cut toward
/// (`x`,`y`), in color `c` with line profile `p` for a line `w` wide: the
/// run of interpolator steps along it until one asks for no other, each
/// drawing its spread
pub open spec fn cut_run<T: Pixel>(lp: LineParameters, x: i64, y: i64, w: i64, end: bool, p: Seq<u8>,
                                   c: Rgba8, before: RenderingBase<T>, after: RenderingBase<T>) -> bool {
    exists|ws: Seq<CutState>, imgs: Seq<RenderingBase<T>>| {
        &&& cut_walk(lp, x, y, w, end, ws)
        &&& ws.len() >= 2
        &&& imgs.len() == ws.len()
        &&& imgs[0] == before
        &&& imgs.last() == after
        &&& cut_all_more(ws, lp.vertical, end, ws.len() - 2)
        &&& !cut_more(ws[ws.len() - 2], ws.last(), lp.vertical, end)
        &&& #[trigger] cut_chain(ws, imgs, p, c, lp.vertical, end, ws.len() - 1)
    }
}

/// The points the halves of a long line are cut toward: toward the start
/// point's midpoint with (`x`,`y`) and a point off the middle for a line cut
/// at its start; toward a point off the middle and the end point's midpoint
/// with (`x`,`y`) if `end`
pub open spec fn cut_halves(lp: LineParameters, x: i64, y: i64, end: bool) -> ((i64, i64), (i64, i64)) {
    let h = halves(lp).0;
    if end {
        (((h.x2 + (h.y2 - h.y1)) as i64, (h.y2 - (h.x2 - h.x1)) as i64),
         (((lp.x2 + x) / 2) as i64, ((lp.y2 + y) / 2) as i64))
    } else {
        ((((lp.x1 + x) / 2) as i64, ((lp.y1 + y) / 2) as i64),
         ((lp.x2 + (lp.y1 + h.y1)) as i64, (h.y2 - (h.x2 - h.x1)) as i64))
    }
}

/// The point the cut end of `lp` is cut toward: (`x`,`y`), moved off the
/// line when it lies less than half a pixel from it
pub open spec fn cut_point(lp: LineParameters, x: i64, y: i64, end: bool) -> (i64, i64) {
    if lp.bisectrix_offset(x as int, y as int) < 128 {
        if end {
            ((lp.x2 + (lp.y2 - lp.y1)) as i64, (lp.y2 - (lp.x2 - lp.x1)) as i64)
        } else {
            ((lp.x1 + (lp.y2 - lp.y1)) as i64, (lp.y1 - (lp.x2 - lp.x1)) as i64)
        }
    } else {
        (x, y)
    }
}

/// Drawing `lp` cut toward (`x`,`y`), with line profile `p` for a line `w`
/// wide, can be done: the line is in range, and each half of a long line,
/// or each step of a short one, can be drawn
pub open spec fn cut_line_ok(lp: LineParameters, x: i64, y: i64, w: i64, end: bool, p: Seq<u8>) -> bool
    decreases lp.len,
{
    &&& lp.wf()
    &&& 0 <= w < WIDTH_LIMIT
    &&& in_aux(x as int)
    &&& in_aux(y as int)
    &&& if lp.len > LINE_MAX_LENGTH {
        let q = cut_halves(lp, x, y, end);
        &&& cut_line_ok(halves(lp).0, q.0.0, q.0.1, w, end, p)
        &&& cut_line_ok(halves(lp).1, q.1.0, q.1.1, w, end, p)
    } else {
        let f = cut_point(lp, x, y, end);
        cut_walk_ok(lp, f.0, f.1, w, end, p)
    }
}

/// Image `after` is image `before` after `lp` is drawn cut toward
/// (`x`,`y`): a long line as its two halves in turn, a short one as a run
/// of steps
pub open spec fn cut_line_drawn<T: Pixel>(lp: LineParameters, x: i64, y: i64, w: i64, end: bool, p: Seq<u8>,
                                          c: Rgba8, before: RenderingBase<T>, after: RenderingBase<T>) -> bool
    decreases lp.len,
{
    if lp.len > LINE_MAX_LENGTH {
        let q = cut_halves(lp, x, y, end);
        exists|mid: RenderingBase<T>| {
            &&& #[trigger] mid.wf()
            &&& cut_line_drawn(halves(lp).0, q.0.0, q.0.1, w, end, p, c, before, mid)
            &&& cut_line_drawn(halves(lp).1, q.1.0, q.1.1, w, end, p, c, mid, after)
        }
    } else {
        let f = cut_point(lp, x, y, end);
        cut_run(lp, f.0, f.1, w, end, p, c, before, after)
    }
}


impl<'a, T: Pixel> RendererOutlineAA<'a, T> {
    /// Draw the line `lp` with its start cut by the bisectrix toward
    /// (`sx`,`sy`): a line longer than `LINE_MAX_LENGTH` as its two halves,
    /// else by stepping an interpolator along it, each step drawing the
    /// spread of coverages around one pixel, none before the start line
    pub fn line1_no_clip(&mut self, lp: &LineParameters, sx: i64, sy: i64)
        requires
            old(self).ren.wf(),
            cut_line_ok(*lp, sx, sy, old(self).subpixel_width, false, old(self).profile@),
        ensures
            final(self).ren.wf(),
            final(self).color == old(self).color,
            final(self).profile@ == old(self).profile@,
            final(self).subpixel_width == old(self).subpixel_width,
            cut_line_drawn(*lp, sx, sy, old(self).subpixel_width, false, old(self).profile@, old(self).color,
                *old(self).ren, *final(self).ren),
        decreases lp.len,
    {
        if lp.len > LINE_MAX_LENGTH {
            let (lp1, lp2) = lp.divide();
            let ghost before = *self.ren;
            let ghost w0 = self.subpixel_width;
            let ghost p0 = self.profile@;
            let ghost c0 = self.color;
            let tx: i64 = lp.x1 + sx;
            let ty: i64 = lp.y1 + sy;
            proof {
                crate::fixed::lemma_shr1(tx);
                crate::fixed::lemma_shr1(ty);
            }
            assert(lp1 == halves(*lp).0 && lp2 == halves(*lp).1);
            self.line1_no_clip(&lp1, tx >> 1i64, ty >> 1i64);
            let ghost mid = *self.ren;
            self.line1_no_clip(&lp2, lp.x2 + (lp.y1 + lp1.y1), lp1.y2 - (lp1.x2 - lp1.x1));
            let ghost after = *self.ren;
            assert(mid.wf());
            assert(cut_line_drawn(*lp, sx, sy, w0, false, p0, c0, before, after));
            return;
        }
        let ghost w = self.subpixel_width;
        let ghost p = self.profile@;
        let ghost c = self.color;
        let ghost before = *self.ren;
        let (sx, sy) = lp.fix_degenerate_bisectrix_start(sx, sy);
        let mut li = lp.interp1(sx, sy, self.subpixel_width());
        let vertical = li.vertical();
        let ghost count = li.li.count;
        let ghost mut ws: Seq<CutState> = seq![(li.li, li.di)];
        let ghost mut imgs: Seq<RenderingBase<T>> = seq![*self.ren];
        assert(AA1 { di: li.di, li: li.li } == li);
        loop
            invariant_except_break
                li.li.step <= count,
                cut_all_more(ws, vertical, false, ws.len() - 1),
            invariant
                cut_walk(*lp, sx, sy, w, false, ws),
                ws.last() == (li.li, li.di),
                li.li.count == count,
                vertical == lp.vertical,
                imgs.len() == ws.len(),
                imgs[0] == before,
                imgs.last() == *self.ren,
                cut_chain(ws, imgs, p, c, vertical, false, ws.len() - 1),
                self.ren.wf(),
                self.color == c,
                self.profile@ == p,
                self.subpixel_width == w,
                cut_walk_ok(*lp, sx, sy, w, false, p),
            ensures
                ws.len() >= 2,
                cut_all_more(ws, vertical, false, ws.len() - 2),
                !cut_more(ws[ws.len() - 2], ws.last(), vertical, false),
            decreases count - li.li.step,
        {
            proof {
                assert(cut_pre(ws.last(), p, vertical));
                lemma_profile(self, li.li.dist@, li.li.width as int, cut_s1(ws.last(), vertical));
                self.lemma_spans_drawable();
            }
            let ghost a = (li.li, li.di);
            let ghost img_a = *self.ren;
            let more = if vertical { li.step_ver(self) } else { li.step_hor(self) };
            proof {
                lemma_profile(self, a.0.dist@, a.0.width as int, cut_s1(a, vertical));
                let b = (li.li, li.di);
                assert(cut_next(a, b, vertical));
                assert(cut_drawn(a, b, img_a, *self.ren, c, vertical));
                assert(cut_covers(a, b, p, vertical, false));
                assert(more == cut_more(a, b, vertical, false));
                let ws0 = ws;
                let imgs0 = imgs;
                ws = ws.push(b);
                imgs = imgs.push(*self.ren);
                assert forall|k: int| 0 <= k < ws.len() - 1 implies #[trigger] cut_next(ws[k], ws[k + 1], lp.vertical) by {
                    if k < ws0.len() - 1 {
                        assert(cut_next(ws0[k], ws0[k + 1], lp.vertical));
                    }
                }
                assert forall|k: int| 0 <= k < ws.len() - 2 implies #[trigger] cut_more(ws[k], ws[k + 1], vertical, false) by {
                    assert(cut_more(ws0[k], ws0[k + 1], vertical, false));
                }
                if more {
                    assert forall|k: int| 0 <= k < ws.len() - 1 implies #[trigger] cut_more(ws[k], ws[k + 1], vertical, false) by {
                        if k < ws0.len() - 1 {
                            assert(cut_more(ws0[k], ws0[k + 1], vertical, false));
                        }
                    }
                }
                assert forall|k: int| 0 <= k < ws.len() - 1 implies {
                    &&& #[trigger] cut_drawn(ws[k], ws[k + 1], imgs[k], imgs[k + 1], c, vertical)
                    &&& cut_covers(ws[k], ws[k + 1], p, vertical, false)
                } by {
                    if k < ws0.len() - 1 {
                        assert(cut_chain(ws0, imgs0, p, c, vertical, false, ws0.len() - 1));
                        assert(cut_drawn(ws0[k], ws0[k + 1], imgs0[k], imgs0[k + 1], c, vertical));
                    } else {
                        assert(ws[k] == a && ws[k + 1] == b);
                        assert(imgs[k] == img_a && imgs[k + 1] == *self.ren);
                    }
                }
                assert(cut_chain(ws, imgs, p, c, vertical, false, ws.len() - 1));
            }
            if !more {
                break;
            }
        }
        assert(cut_run(*lp, sx, sy, w, false, p, c, before, *self.ren));
    }

    /// Draw the line `lp` with its end cut by the bisectrix toward
    /// (`ex`,`ey`): a line longer than `LINE_MAX_LENGTH` as its two halves,
    /// else by stepping an interpolator along it, each step drawing the
    /// spread of coverages around one pixel, none past the end line, until
    /// a spread has no pixel before it
    pub fn line2_no_clip(&mut self, lp: &LineParameters, ex: i64, ey: i64)
        requires
            old(self).ren.wf(),
            cut_line_ok(*lp, ex, ey, old(self).subpixel_width, true, old(self).profile@),
        ensures
            final(self).ren.wf(),
            final(self).color == old(self).color,
            final(self).profile@ == old(self).profile@,
            final(self).subpixel_width == old(self).subpixel_width,
            cut_line_drawn(*lp, ex, ey, old(self).subpixel_width, true, old(self).profile@, old(self).color,
                *old(self).ren, *final(self).ren),
        decreases lp.len,
    {
        if lp.len > LINE_MAX_LENGTH {
            let (lp1, lp2) = lp.divide();
            let ghost before = *self.ren;
            let ghost w0 = self.subpixel_width;
            let ghost p0 = self.profile@;
            let ghost c0 = self.color;
            let tx: i64 = lp.x2 + ex;
            let ty: i64 = lp.y2 + ey;
            proof {
                crate::fixed::lemma_shr1(tx);
                crate::fixed::lemma_shr1(ty);
            }
            assert(lp1 == halves(*lp).0 && lp2 == halves(*lp).1);
            self.line2_no_clip(&lp1, lp1.x2 + (lp1.y2 - lp1.y1), lp1.y2 - (lp1.x2 - lp1.x1));
            let ghost mid = *self.ren;
            self.line2_no_clip(&lp2, tx >> 1i64, ty >> 1i64);
            let ghost after = *self.ren;
            assert(mid.wf());
            assert(cut_line_drawn(*lp, ex, ey, w0, true, p0, c0, before, after));
            return;
        }
        let ghost w = self.subpixel_width;
        let ghost p = self.profile@;
        let ghost c = self.color;
        let ghost before = *self.ren;
        let (ex, ey) = lp.fix_degenerate_bisectrix_end(ex, ey);
        let mut li = lp.interp2(ex, ey, self.subpixel_width());
        let vertical = li.vertical();
        let ghost count = li.li.count;
        let ghost mut ws: Seq<CutState> = seq![(li.li, li.di)];
        let ghost mut imgs: Seq<RenderingBase<T>> = seq![*self.ren];
        loop
            invariant_except_break
                li.li.step <= count,
                cut_all_more(ws, vertical, true, ws.len() - 1),
            invariant
                cut_walk(*lp, ex, ey, w, true, ws),
                ws.last() == (li.li, li.di),
                li.li.count == count,
                vertical == lp.vertical,
                imgs.len() == ws.len(),
                imgs[0] == before,
                imgs.last() == *self.ren,
                cut_chain(ws, imgs, p, c, vertical, true, ws.len() - 1),
                self.ren.wf(),
                self.color == c,
                self.profile@ == p,
                self.subpixel_width == w,
                cut_walk_ok(*lp, ex, ey, w, true, p),
            ensures
                ws.len() >= 2,
                cut_all_more(ws, vertical, true, ws.len() - 2),
                !cut_more(ws[ws.len() - 2], ws.last(), vertical, true),
            decreases count - li.li.step,
        {
            proof {
                assert(cut_pre(ws.last(), p, vertical));
                lemma_profile(self, li.li.dist@, li.li.width as int, cut_s1(ws.last(), vertical));
                self.lemma_spans_drawable();
            }
            let ghost a = (li.li, li.di);
            let ghost img_a = *self.ren;
            let more = if vertical { li.step_ver(self) } else { li.step_hor(self) };
            proof {
                lemma_profile(self, a.0.dist@, a.0.width as int, cut_s1(a, vertical));
                let b = (li.li, li.di);
                assert(cut_next(a, b, vertical));
                assert(cut_drawn(a, b, img_a, *self.ren, c, vertical));
                assert(cut_covers(a, b, p, vertical, true));
                assert(more == cut_more(a, b, vertical, true));
                let ws0 = ws;
                let imgs0 = imgs;
                ws = ws.push(b);
                imgs = imgs.push(*self.ren);
                assert forall|k: int| 0 <= k < ws.len() - 1 implies #[trigger] cut_next(ws[k], ws[k + 1], lp.vertical) by {
                    if k < ws0.len() - 1 {
                        assert(cut_next(ws0[k], ws0[k + 1], lp.vertical));
                    }
                }
                assert forall|k: int| 0 <= k < ws.len() - 2 implies #[trigger] cut_more(ws[k], ws[k + 1], vertical, true) by {
                    assert(cut_more(ws0[k], ws0[k + 1], vertical, true));
                }
                if more {
                    assert forall|k: int| 0 <= k < ws.len() - 1 implies #[trigger] cut_more(ws[k], ws[k + 1], vertical, true) by {
                        if k < ws0.len() - 1 {
                            assert(cut_more(ws0[k], ws0[k + 1], vertical, true));
                        }
                    }
                }
                assert forall|k: int| 0 <= k < ws.len() - 1 implies {
                    &&& #[trigger] cut_drawn(ws[k], ws[k + 1], imgs[k], imgs[k + 1], c, vertical)
                    &&& cut_covers(ws[k], ws[k + 1], p, vertical, true)
                } by {
                    if k < ws0.len() - 1 {
                        assert(cut_chain(ws0, imgs0, p, c, vertical, true, ws0.len() - 1));
                        assert(cut_drawn(ws0[k], ws0[k + 1], imgs0[k], imgs0[k + 1], c, vertical));
                    } else {
                        assert(ws[k] == a && ws[k + 1] == b);
                        assert(imgs[k] == img_a && imgs[k + 1] == *self.ren);
                    }
                }
                assert(cut_chain(ws, imgs, p, c, vertical, true, ws.len() - 1));
            }
            if !more {
                break;
            }
        }
        assert(cut_run(*lp, ex, ey, w, true, p, c, before, *self.ren));
    }

    /// Draw the line `lp` with its start cut by the bisectrix toward (`sx`,`sy`)
    pub fn line1(&mut self, lp: &LineParameters, sx: i64, sy: i64)
        requires
            old(self).ren.wf(),
            cut_line_ok(*lp, sx, sy, old(self).subpixel_width, false, old(self).profile@),
        ensures
            final(self).ren.wf(),
            final(self).color == old(self).color,
            final(self).profile@ == old(self).profile@,
            final(self).subpixel_width == old(self).subpixel_width,
            cut_line_drawn(*lp, sx, sy, old(self).subpixel_width, false, old(self).profile@, old(self).color,
                *old(self).ren, *final(self).ren),
    {
        self.line1_no_clip(lp, sx, sy);
    }

    /// Draw the line `lp` with its end cut by the bisectrix toward (`ex`,`ey`)
    pub fn line2(&mut self, lp: &LineParameters, ex: i64, ey: i64)
        requires
            old(self).ren.wf(),
            cut_line_ok(*lp, ex, ey, old(self).subpixel_width, true, old(self).profile@),
        ensures
            final(self).ren.wf(),
            final(self).color == old(self).color,
            final(self).profile@ == old(self).profile@,
            final(self).subpixel_width == old(self).subpixel_width,
            cut_line_drawn(*lp, ex, ey, old(self).subpixel_width, true, old(self).profile@, old(self).color,
                *old(self).ren, *final(self).ren),
    {
        self.line2_no_clip(lp, ex, ey);
    }
}

} // verus!
verus! {

/// The state of an interpolator along a line cut at both ends: the part
/// that walks the line and the distances to the line and to both cuts
pub type Cut3State = (LineInterpolatorAA, DistanceInterpolator3);

/// `b` is `a` after one step, along rows if `vertical`, else along columns;
/// the coverages aside. The step counter counts down.
pub open spec fn cut3_next(a: Cut3State, b: Cut3State, vertical: bool) -> bool {
    &&& b.0.li.fields() == a.0.li.inc_spec()
    &&& b.0.step == a.0.step - 1
    &&& b.0.dist == a.0.dist
    &&& b.0.lp == a.0.lp
    &&& b.0.len == a.0.len
    &&& b.0.count == a.0.count
    &&& b.0.width == a.0.width
    &&& b.0.max_extent == a.0.max_extent
    &&& b.0.tables_ok()
    &&& if vertical {
        &&& b.0.y == a.0.y + a.0.lp.inc
        &&& b.0.x == a.0.x_after_ver()
        &&& b.0.old_x == b.0.x
        &&& b.0.old_y == a.0.old_y
        &&& b.1 == a.0.di_after_ver(a.1)
    } else {
        &&& b.0.x == a.0.x + a.0.lp.inc
        &&& b.0.y == a.0.y_after_hor()
        &&& b.0.old_y == b.0.y
        &&& b.0.old_x == a.0.old_x
        &&& b.1 == a.0.di_after_hor(a.1)
    }
}

/// The distance of the next pixel from the line, as a step from `a` finds it
pub open spec fn cut3_s1(a: Cut3State, vertical: bool) -> int {
    if vertical { a.0.s1_ver(a.1) } else { a.0.s1_hor(a.1) }
}

/// A step from `a` can be taken with the coverages of line profile `p`; a
/// step along columns must find the spread toward decreasing rows empty
pub open spec fn cut3_pre(a: Cut3State, p: Seq<u8>, vertical: bool) -> bool {
    let s1 = cut3_s1(a, vertical);
    let d = if vertical { a.0.di_after_ver(a.1) } else { a.0.di_after_hor(a.1) };
    &&& a.0.ready()
    &&& a.1.step_ok()
    &&& a.0.spread_ends(s1)
    &&& profile_queryable(p, a.0.dist@, a.0.width as int, s1)
    &&& spread_fits(d.dist_start as int, d.dx_start as int, d.dy_start as int)
    &&& spread_fits(d.dist_end as int, d.dx_end as int, d.dy_end as int)
    &&& (!vertical ==> a.0.dist@[1] + s1 > a.0.width)
}

/// The pixel `t` places from the center of the spread of `b` lies between
/// the start line and the end line
pub open spec fn cut3_inside(b: Cut3State, t: int, vertical: bool) -> bool {
    let ds = b.1.dist_start as int;
    let de = b.1.dist_end as int;
    if vertical {
        de + t * (b.1.dy_end as int) > 0 && ds + t * (b.1.dy_start as int) <= 0
    } else {
        de - t * (b.1.dx_end as int) > 0 && ds - t * (b.1.dx_start as int) <= 0
    }
}

/// The first place of the spread a step from `a` covers: toward decreasing
/// rows or columns along rows, from the center along columns
pub open spec fn cut3_lo(a: Cut3State, vertical: bool) -> int {
    let s1 = cut3_s1(a, vertical);
    if vertical { 1 - first_above(a.0.dist@, a.0.width - s1, 1) } else { 0 }
}

/// The step from `a` to `b` asks for another: some pixel of the spread was
/// between the cuts, and the counter is below the pixel count
pub open spec fn cut3_more(a: Cut3State, b: Cut3State, vertical: bool) -> bool {
    let s1 = cut3_s1(a, vertical);
    let w = a.0.width as int;
    let k1 = first_above(b.0.dist@, w + s1, 1);
    let k2 = first_above(b.0.dist@, w - s1, 1);
    let ds = b.1.dist_start as int;
    let de = b.1.dist_end as int;
    let npix = (if de > 0 { 1int } else { 0 }) + if vertical {
        count_inside(ds, b.1.dy_start as int, de, b.1.dy_end as int, k1 - 1)
            + count_inside(ds, -b.1.dy_start, de, -b.1.dy_end, k2 - 1)
    } else {
        count_inside(ds, -b.1.dx_start, de, -b.1.dx_end, k1 - 1)
    };
    npix != 0 && b.0.step < b.0.count
}

/// The coverages of the step from `a` to `b`: those of line profile `p` at
/// the distances of the spread between the cuts, else none
pub open spec fn cut3_covers(a: Cut3State, b: Cut3State, p: Seq<u8>, vertical: bool) -> bool {
    let s1 = cut3_s1(a, vertical);
    let k1 = first_above(a.0.dist@, a.0.width + s1, 1);
    forall|t: int| cut3_lo(a, vertical) <= t < k1 ==> #[trigger] b.0.covers@[66 + t]
        == (if cut3_inside(b, t, vertical) { profile_spread(p, a.0.dist@, s1, t) } else { 0 })
}

/// Image `after` is image `before` after the step from `a` to `b` drew the
/// spread of `b` in color `c`
pub open spec fn cut3_drawn<T: Pixel>(a: Cut3State, b: Cut3State, before: RenderingBase<T>,
                                      after: RenderingBase<T>, c: Rgba8, vertical: bool) -> bool {
    let s1 = cut3_s1(a, vertical);
    let w = a.0.width as int;
    let k1 = first_above(a.0.dist@, w + s1, 1);
    let k2 = first_above(a.0.dist@, w - s1, 1);
    if vertical {
        solid_hspan_done(&before, &after, (b.0.x - k2 + 1) as i64 as int, b.0.y as int,
            (k1 + k2 - 1) as i64 as int, c, b.0.covers@.subrange(67 - k2, 66 + k1))
    } else {
        solid_vspan_done(&before, &after, b.0.x as int, b.0.y as int, k1 as i64 as int, c,
            b.0.covers@.subrange(66, 132))
    }
}

/// `a` is an interpolator along `lp` for a line `w` wide, as `AA3::new` makes
/// it with its ends cut toward (`sx`,`sy`) and (`ex`,`ey`)
pub open spec fn cut3_begin(lp: LineParameters, sx: i64, sy: i64, ex: i64, ey: i64, w: i64, a: Cut3State) -> bool {
    &&& exists|k: int| #[trigger] aa3_start(lp, sx, sy, ex, ey, w, AA3 { di: a.1, li: a.0 }, k)
    &&& a.0.setup(lp, w)
}

/// `ws` are the states of an interpolator along `lp` from its start, one
/// step apart
pub open spec fn cut3_walk(lp: LineParameters, sx: i64, sy: i64, ex: i64, ey: i64, w: i64,
                           ws: Seq<Cut3State>) -> bool {
    &&& ws.len() >= 1
    &&& cut3_begin(lp, sx, sy, ex, ey, w, ws[0])
    &&& forall|k: int| 0 <= k < ws.len() - 1 ==> #[trigger] cut3_next(ws[k], ws[k + 1], lp.vertical)
}

/// Every one of the first `n` steps of the walk `ws` asked for another
pub open spec fn cut3_all_more(ws: Seq<Cut3State>, vertical: bool, n: int) -> bool {
    forall|k: int| 0 <= k < n ==> #[trigger] cut3_more(ws[k], ws[k + 1], vertical)
}

/// Every step that drawing `lp` cut toward (`sx`,`sy`) and (`ex`,`ey`)
/// takes can be taken with line profile `p`: the run ends, and each state
/// it reaches allows the next step
pub open spec fn cut3_walk_ok(lp: LineParameters, sx: i64, sy: i64, ex: i64, ey: i64, w: i64,
                              p: Seq<u8>) -> bool {
    forall|ws: Seq<Cut3State>| #[trigger] cut3_walk(lp, sx, sy, ex, ey, w, ws)
        && cut3_all_more(ws, lp.vertical, ws.len() - 1) ==> cut3_pre(ws.last(), p, lp.vertical)
}

/// Each of the first `n` steps of `ws` drew its spread, from image `imgs[k]`
/// to image `imgs[k + 1]`, with the coverages of line profile `p`
pub open spec fn cut3_chain<T: Pixel>(ws: Seq<Cut3State>, imgs: Seq<RenderingBase<T>>, p: Seq<u8>, c: Rgba8,
                                      vertical: bool, n: int) -> bool {
    forall|k: int| 0 <= k < n ==> {
        &&& #[trigger] cut3_drawn(ws[k], ws[k + 1], imgs[k], imgs[k + 1], c, vertical)
        &&& cut3_covers(ws[k], ws[k + 1], p, vertical)
    }
}

/// Image `after` is image `before` after `lp` is drawn cut toward
/// (`sx`,`sy`) and (`ex`,`ey`), in color `c` with line profile `p` for a
/// line `w` wide: the run of interpolator steps along it until one asks for
/// no other, each drawing its spread
pub open spec fn cut3_run<T: Pixel>(lp: LineParameters, sx: i64, sy: i64, ex: i64, ey: i64, w: i64,
                                    p: Seq<u8>, c: Rgba8, before: RenderingBase<T>, after: RenderingBase<T>) -> bool {
    exists|ws: Seq<Cut3State>, imgs: Seq<RenderingBase<T>>| {
        &&& cut3_walk(lp, sx, sy, ex, ey, w, ws)
        &&& ws.len() >= 2
        &&& imgs.len() == ws.len()
        &&& imgs[0] == before
        &&& imgs.last() == after
        &&& cut3_all_more(ws, lp.vertical, ws.len() - 2)
        &&& !cut3_more(ws[ws.len() - 2], ws.last(), lp.vertical)
        &&& #[trigger] cut3_chain(ws, imgs, p, c, lp.vertical, ws.len() - 1)
    }
}

/// The point off the middle of a long line that its halves are cut toward
pub open spec fn mid_cut(lp: LineParameters) -> (i64, i64) {
    let h = halves(lp).0;
    ((h.x2 + (h.y2 - h.y1)) as i64, (h.y2 - (h.x2 - h.x1)) as i64)
}

/// Drawing `lp` cut toward (`sx`,`sy`) and (`ex`,`ey`), with line profile
/// `p` for a line `w` wide, can be done: the line is in range, and each half
/// of a long line, or each step of a short one, can be drawn
pub open spec fn cut3_line_ok(lp: LineParameters, sx: i64, sy: i64, ex: i64, ey: i64, w: i64,
                              p: Seq<u8>) -> bool
    decreases lp.len,
{
    &&& lp.wf()
    &&& 0 <= w < WIDTH_LIMIT
    &&& in_aux(sx as int)
    &&& in_aux(sy as int)
    &&& in_aux(ex as int)
    &&& in_aux(ey as int)
    &&& if lp.len > LINE_MAX_LENGTH {
        let m = mid_cut(lp);
        &&& cut3_line_ok(halves(lp).0, ((lp.x1 + sx) / 2) as i64, ((lp.y1 + sy) / 2) as i64, m.0, m.1, w, p)
        &&& cut3_line_ok(halves(lp).1, m.0, m.1, ((lp.x2 + ex) / 2) as i64, ((lp.y2 + ey) / 2) as i64, w, p)
    } else {
        let s = cut_point(lp, sx, sy, false);
        let e = cut_point(lp, ex, ey, true);
        cut3_walk_ok(lp, s.0, s.1, e.0, e.1, w, p)
    }
}

/// Image `after` is image `before` after `lp` is drawn cut toward
/// (`sx`,`sy`) and (`ex`,`ey`): a long line as its two halves in turn, a
/// short one as a run of steps
pub open spec fn cut3_line_drawn<T: Pixel>(lp: LineParameters, sx: i64, sy: i64, ex: i64, ey: i64, w: i64,
                                           p: Seq<u8>, c: Rgba8, before: RenderingBase<T>,
                                           after: RenderingBase<T>) -> bool
    decreases lp.len,
{
    if lp.len > LINE_MAX_LENGTH {
        let m = mid_cut(lp);
        exists|mid: RenderingBase<T>| {
            &&& #[trigger] mid.wf()
            &&& cut3_line_drawn(halves(lp).0, ((lp.x1 + sx) / 2) as i64, ((lp.y1 + sy) / 2) as i64,
                    m.0, m.1, w, p, c, before, mid)
            &&& cut3_line_drawn(halves(lp).1, m.0, m.1, ((lp.x2 + ex) / 2) as i64, ((lp.y2 + ey) / 2) as i64,
                    w, p, c, mid, after)
        }
    } else {
        let s = cut_point(lp, sx, sy, false);
        let e = cut_point(lp, ex, ey, true);
        cut3_run(lp, s.0, s.1, e.0, e.1, w, p, c, before, after)
    }
}

impl<'a, T: Pixel> RendererOutlineAA<'a, T> {
    /// Draw the line `lp` with its ends cut by the bisectrices toward
    /// (`sx`,`sy`) and (`ex`,`ey`): a line longer than `LINE_MAX_LENGTH` as
    /// its two halves, else by stepping an interpolator along it, each step
    /// drawing the spread of coverages around one pixel, none outside the
    /// cuts, until a spread has no pixel between them
    pub fn line3_no_clip(&mut self, lp: &LineParameters, sx: i64, sy: i64, ex: i64, ey: i64)
        requires
            old(self).ren.wf(),
            cut3_line_ok(*lp, sx, sy, ex, ey, old(self).subpixel_width, old(self).profile@),
        ensures
            final(self).ren.wf(),
            final(self).color == old(self).color,
            final(self).profile@ == old(self).profile@,
            final(self).subpixel_width == old(self).subpixel_width,
            cut3_line_drawn(*lp, sx, sy, ex, ey, old(self).subpixel_width, old(self).profile@, old(self).color,
                *old(self).ren, *final(self).ren),
        decreases lp.len,
    {
        if lp.len > LINE_MAX_LENGTH {
            let (lp1, lp2) = lp.divide();
            let ghost before = *self.ren;
            let ghost w0 = self.subpixel_width;
            let ghost p0 = self.profile@;
            let ghost c0 = self.color;
            let mx = lp1.x2 + (lp1.y2 - lp1.y1);
            let my = lp1.y2 - (lp1.x2 - lp1.x1);
            let tsx: i64 = lp.x1 + sx;
            let tsy: i64 = lp.y1 + sy;
            let tex: i64 = lp.x2 + ex;
            let tey: i64 = lp.y2 + ey;
            proof {
                crate::fixed::lemma_shr1(tsx);
                crate::fixed::lemma_shr1(tsy);
                crate::fixed::lemma_shr1(tex);
                crate::fixed::lemma_shr1(tey);
            }
            assert(lp1 == halves(*lp).0 && lp2 == halves(*lp).1);
            self.line3_no_clip(&lp1, tsx >> 1i64, tsy >> 1i64, mx, my);
            let ghost mid = *self.ren;
            self.line3_no_clip(&lp2, mx, my, tex >> 1i64, tey >> 1i64);
            let ghost after = *self.ren;
            assert(mid.wf());
            assert(cut3_line_drawn(*lp, sx, sy, ex, ey, w0, p0, c0, before, after));
            return;
        }
        let ghost w = self.subpixel_width;
        let ghost p = self.profile@;
        let ghost c = self.color;
        let ghost before = *self.ren;
        let (sx, sy) = lp.fix_degenerate_bisectrix_start(sx, sy);
        let (ex, ey) = lp.fix_degenerate_bisectrix_end(ex, ey);
        let mut li = lp.interp3(sx, sy, ex, ey, self.subpixel_width());
        let vertical = li.vertical();
        let ghost mut ws: Seq<Cut3State> = seq![(li.li, li.di)];
        let ghost mut imgs: Seq<RenderingBase<T>> = seq![*self.ren];
        assert(AA3 { di: li.di, li: li.li } == li);
        loop
            invariant_except_break
                cut3_all_more(ws, vertical, ws.len() - 1),
            invariant
                cut3_walk(*lp, sx, sy, ex, ey, w, ws),
                ws.last() == (li.li, li.di),
                vertical == lp.vertical,
                imgs.len() == ws.len(),
                imgs[0] == before,
                imgs.last() == *self.ren,
                cut3_chain(ws, imgs, p, c, vertical, ws.len() - 1),
                self.ren.wf(),
                self.color == c,
                self.profile@ == p,
                self.subpixel_width == w,
                cut3_walk_ok(*lp, sx, sy, ex, ey, w, p),
            ensures
                ws.len() >= 2,
                cut3_all_more(ws, vertical, ws.len() - 2),
                !cut3_more(ws[ws.len() - 2], ws.last(), vertical),
            decreases li.li.step + i64::MAX,
        {
            proof {
                assert(cut3_pre(ws.last(), p, vertical));
                lemma_profile(self, li.li.dist@, li.li.width as int, cut3_s1(ws.last(), vertical));
                self.lemma_spans_drawable();
            }
            let ghost a = (li.li, li.di);
            let ghost img_a = *self.ren;
            let more = if vertical { li.step_ver(self) } else { li.step_hor(self) };
            proof {
                lemma_profile(self, a.0.dist@, a.0.width as int, cut3_s1(a, vertical));
                let b = (li.li, li.di);
                assert(cut3_next(a, b, vertical));
                assert(cut3_drawn(a, b, img_a, *self.ren, c, vertical));
                assert(cut3_covers(a, b, p, vertical));
                assert(more == cut3_more(a, b, vertical));
                let ws0 = ws;
                let imgs0 = imgs;
                ws = ws.push(b);
                imgs = imgs.push(*self.ren);
                assert forall|k: int| 0 <= k < ws.len() - 1 implies #[trigger] cut3_next(ws[k], ws[k + 1], lp.vertical) by {
                    if k < ws0.len() - 1 {
                        assert(cut3_next(ws0[k], ws0[k + 1], lp.vertical));
                    }
                }
                assert forall|k: int| 0 <= k < ws.len() - 2 implies #[trigger] cut3_more(ws[k], ws[k + 1], vertical) by {
                    assert(cut3_more(ws0[k], ws0[k + 1], vertical));
                }
                if more {
                    assert forall|k: int| 0 <= k < ws.len() - 1 implies #[trigger] cut3_more(ws[k], ws[k + 1], vertical) by {
                        if k < ws0.len() - 1 {
                            assert(cut3_more(ws0[k], ws0[k + 1], vertical));
                        }
                    }
                }
                assert forall|k: int| 0 <= k < ws.len() - 1 implies {
                    &&& #[trigger] cut3_drawn(ws[k], ws[k + 1], imgs[k], imgs[k + 1], c, vertical)
                    &&& cut3_covers(ws[k], ws[k + 1], p, vertical)
                } by {
                    if k < ws0.len() - 1 {
                        assert(cut3_chain(ws0, imgs0, p, c, vertical, ws0.len() - 1));
                        assert(cut3_drawn(ws0[k], ws0[k + 1], imgs0[k], imgs0[k + 1], c, vertical));
                    } else {
                        assert(ws[k] == a && ws[k + 1] == b);
                        assert(imgs[k] == img_a && imgs[k + 1] == *self.ren);
                    }
                }
                assert(cut3_chain(ws, imgs, p, c, vertical, ws.len() - 1));
            }
            if !more {
                break;
            }
        }
        assert(cut3_run(*lp, sx, sy, ex, ey, w, p, c, before, *self.ren));
    }

    /// Draw the line `lp` with its ends cut by the bisectrices toward
    /// (`sx`,`sy`) and (`ex`,`ey`)
    pub fn line3(&mut self, lp: &LineParameters, sx: i64, sy: i64, ex: i64, ey: i64)
        requires
            old(self).ren.wf(),
            cut3_line_ok(*lp, sx, sy, ex, ey, old(self).subpixel_width, old(self).profile@),
        ensures
            final(self).ren.wf(),
            final(self).color == old(self).color,
            final(self).profile@ == old(self).profile@,
            final(self).subpixel_width == old(self).subpixel_width,
            cut3_line_drawn(*lp, sx, sy, ex, ey, old(self).subpixel_width, old(self).profile@, old(self).color,
                *old(self).ren, *final(self).ren),
    {
        self.line3_no_clip(lp, sx, sy, ex, ey);
    }
}

} // verus!

verus! {

/// Each step of a walk along a line cut at one end moves the step counter
/// up by one
pub proof fn lemma_cut_walk_steps(lp: LineParameters, x: i64, y: i64, w: i64, end: bool, ws: Seq<CutState>, j: int)
    requires
        cut_walk(lp, x, y, w, end, ws),
        0 <= j < ws.len(),
    ensures
        ws[j].0.step == ws[0].0.step + j,
        ws[j].0.count == ws[0].0.count,
    decreases j,
{
    if j > 0 {
        lemma_cut_walk_steps(lp, x, y, w, end, ws, j - 1);
        let k = j - 1;
        assert(cut_next(ws[k], ws[k + 1], lp.vertical));
    }
}

/// A line cut at its start is drawn in as many steps as it has pixels
/// along its major axis plus the steps back from its start: at least one
/// more than the pixel count, and at most the extent of the line width more
/// than that. The last step reaches the pixel count.
pub proof fn lemma_line1_step_count<T: Pixel>(lp: LineParameters, x: i64, y: i64, w: i64, p: Seq<u8>, c: Rgba8,
                                              before: RenderingBase<T>, after: RenderingBase<T>)
    requires
        cut_run(lp, x, y, w, false, p, c, before, after),
    ensures
        exists|ws: Seq<CutState>| {
            &&& #[trigger] cut_walk(lp, x, y, w, false, ws)
            &&& ws.len() >= 2
            &&& ws.last().0.step == ws[0].0.count
            &&& ws[0].0.count + 1 <= ws.len() - 1 <= ws[0].0.count + ws[0].0.max_extent + 1
        },
{
    let (ws, imgs) = choose|ws: Seq<CutState>, imgs: Seq<RenderingBase<T>>| {
        &&& cut_walk(lp, x, y, w, false, ws)
        &&& ws.len() >= 2
        &&& imgs.len() == ws.len()
        &&& imgs[0] == before
        &&& imgs.last() == after
        &&& cut_all_more(ws, lp.vertical, false, ws.len() - 2)
        &&& !cut_more(ws[ws.len() - 2], ws.last(), lp.vertical, false)
        &&& #[trigger] cut_chain(ws, imgs, p, c, lp.vertical, false, ws.len() - 1)
    };
    let n = ws.len() - 1;
    lemma_cut_walk_steps(lp, x, y, w, false, ws, n);
    if n >= 2 {
        lemma_cut_walk_steps(lp, x, y, w, false, ws, n - 1);
        let k = n - 2;
        assert(cut_more(ws[k], ws[k + 1], lp.vertical, false));
    }
    assert(AA1 { di: ws[0].1, li: ws[0].0 }.li == ws[0].0);
}

} // verus!

verus! {

/// Along a line cut at its start, each step of the walk is at the pixel
/// its step counter names: the column `lp.x1 / 256 + step * inc` for a
/// mostly horizontal line, the row `lp.y1 / 256 + step * inc` for a mostly
/// vertical one, the counter starting below zero at the first pixel before
/// the start
pub proof fn lemma_line1_walk_position(lp: LineParameters, x: i64, y: i64, w: i64, ws: Seq<CutState>, j: int)
    requires
        cut_walk(lp, x, y, w, false, ws),
        0 <= j < ws.len(),
    ensures
        ws[j].0.lp == lp,
        !lp.vertical ==> ws[j].0.x == lp.x1 / 256 + ws[j].0.step * lp.inc,
        lp.vertical ==> ws[j].0.y == lp.y1 / 256 + ws[j].0.step * lp.inc,
    decreases j,
{
    if j > 0 {
        lemma_line1_walk_position(lp, x, y, w, ws, j - 1);
        let k = j - 1;
        assert(cut_next(ws[k], ws[k + 1], lp.vertical));
        let s = ws[k].0.step;
        assert(s * lp.inc + lp.inc == (s + 1) * lp.inc) by (nonlinear_arith);
    } else {
        let s = ws[0].0.step;
        let a = AA1 { di: ws[0].1, li: ws[0].0 };
        assert(cut_begin(lp, x, y, w, false, ws[0]));
        assert(aa1_start(lp, x, y, w, a, -s));
        assert((-s) * lp.inc == -(s * lp.inc)) by (nonlinear_arith);
    }
}

} // verus!

verus! {

/// The step of a walk along a line cut at its start whose counter reaches
/// the pixel count is at the pixel of the line's end point along the major
/// axis
pub proof fn lemma_line1_last_position(lp: LineParameters, x: i64, y: i64, w: i64, ws: Seq<CutState>)
    requires
        cut_walk(lp, x, y, w, false, ws),
        ws.last().0.step == ws[0].0.count,
        lp.wf(),
    ensures
        !lp.vertical ==> ws.last().0.x == lp.x2 / 256,
        lp.vertical ==> ws.last().0.y == lp.y2 / 256,
{
    let j = ws.len() - 1;
    lemma_line1_walk_position(lp, x, y, w, ws, j);
    assert(cut_begin(lp, x, y, w, false, ws[0]));
    let n = ws[0].0.count as int;
    let inc = lp.inc as int;
    if lp.vertical {
        let d = lp.y2 / 256 - lp.y1 / 256;
        if lp.y2 > lp.y1 {
            assert(lp.y2 / 256 >= lp.y1 / 256) by (nonlinear_arith) requires lp.y2 > lp.y1;
            assert(inc == 1 && n == d);
        } else {
            assert(lp.y2 / 256 <= lp.y1 / 256) by (nonlinear_arith) requires lp.y2 <= lp.y1;
            assert(inc == -1 && n == -d);
        }
        assert(n * inc == d) by (nonlinear_arith) requires (inc == 1 && n == d) || (inc == -1 && n == -d);
    } else {
        let d = lp.x2 / 256 - lp.x1 / 256;
        if lp.x2 > lp.x1 {
            assert(lp.x2 / 256 >= lp.x1 / 256) by (nonlinear_arith) requires lp.x2 > lp.x1;
            assert(inc == 1 && n == d);
        } else {
            assert(lp.x2 / 256 <= lp.x1 / 256) by (nonlinear_arith) requires lp.x2 <= lp.x1;
            assert(inc == -1 && n == -d);
        }
        assert(n * inc == d) by (nonlinear_arith) requires (inc == 1 && n == d) || (inc == -1 && n == -d);
    }
}

} // verus!

verus! {

/// Each step of a walk along a line cut at its end is one pixel further
/// along the major axis: the `j`-th state is at the column
/// `lp.x1 / 256 + j * inc` (the row `lp.y1 / 256 + j * inc` for a mostly
/// vertical line), and its counter is `j` past minus the width extent
pub proof fn lemma_line2_walk_position(lp: LineParameters, x: i64, y: i64, w: i64, ws: Seq<CutState>, j: int)
    requires
        cut_walk(lp, x, y, w, true, ws),
        0 <= j < ws.len(),
    ensures
        ws[j].0.lp == lp,
        ws[j].0.step == j - ws[0].0.max_extent,
        ws[j].0.max_extent == ws[0].0.max_extent,
        ws[j].0.count == ws[0].0.count,
        !lp.vertical ==> ws[j].0.x == lp.x1 / 256 + j * lp.inc,
        lp.vertical ==> ws[j].0.y == lp.y1 / 256 + j * lp.inc,
    decreases j,
{
    if j > 0 {
        lemma_line2_walk_position(lp, x, y, w, ws, j - 1);
        let k = j - 1;
        assert(cut_next(ws[k], ws[k + 1], lp.vertical));
        assert(k * lp.inc + lp.inc == j * lp.inc) by (nonlinear_arith) requires k == j - 1;
    } else {
        assert(cut_begin(lp, x, y, w, true, ws[0]));
    }
}

/// Drawing a line cut at its start of `n` pixels along its major axis
/// takes `N` steps, `n + 1 <= N <= n + m + 1` with `m` the extent of the
/// width; every step draws one span, at the pixel its counter names, and
/// asks for another exactly while its counter is below `n`; the last step
/// draws at the end point's pixel
pub proof fn lemma_line1_run_law<T: Pixel>(lp: LineParameters, x: i64, y: i64, w: i64, p: Seq<u8>, c: Rgba8,
                                           before: RenderingBase<T>, after: RenderingBase<T>)
    requires
        cut_run(lp, x, y, w, false, p, c, before, after),
        lp.wf(),
    ensures
        exists|ws: Seq<CutState>, imgs: Seq<RenderingBase<T>>| {
            &&& ws.len() >= 2
            &&& imgs.len() == ws.len()
            &&& imgs[0] == before
            &&& imgs.last() == after
            &&& ws[0].0.count + 1 <= ws.len() - 1 <= ws[0].0.count + ws[0].0.max_extent + 1
            &&& forall|k: int| #![trigger ws[k]] 1 <= k < ws.len() ==> {
                &&& ws[k].0.step == ws[0].0.step + k
                &&& (!lp.vertical ==> ws[k].0.x == lp.x1 / 256 + ws[k].0.step * lp.inc)
                &&& (lp.vertical ==> ws[k].0.y == lp.y1 / 256 + ws[k].0.step * lp.inc)
                &&& cut_more(ws[k - 1], ws[k], lp.vertical, false) == (ws[k].0.step < ws[0].0.count)
                &&& cut_drawn(ws[k - 1], ws[k], imgs[k - 1], imgs[k], c, lp.vertical)
            }
            &&& (!lp.vertical ==> ws.last().0.x == lp.x2 / 256)
            &&& (lp.vertical ==> ws.last().0.y == lp.y2 / 256)
        },
{
    let (ws, imgs) = choose|ws: Seq<CutState>, imgs: Seq<RenderingBase<T>>| {
        &&& cut_walk(lp, x, y, w, false, ws)
        &&& ws.len() >= 2
        &&& imgs.len() == ws.len()
        &&& imgs[0] == before
        &&& imgs.last() == after
        &&& cut_all_more(ws, lp.vertical, false, ws.len() - 2)
        &&& !cut_more(ws[ws.len() - 2], ws.last(), lp.vertical, false)
        &&& #[trigger] cut_chain(ws, imgs, p, c, lp.vertical, false, ws.len() - 1)
    };
    let n = ws.len() - 1;
    lemma_cut_walk_steps(lp, x, y, w, false, ws, n);
    if n >= 2 {
        let k = n - 2;
        assert(cut_more(ws[k], ws[k + 1], lp.vertical, false));
        lemma_cut_walk_steps(lp, x, y, w, false, ws, n - 1);
    }
    assert(AA1 { di: ws[0].1, li: ws[0].0 }.li == ws[0].0);
    assert(cut_begin(lp, x, y, w, false, ws[0]));
    assert forall|k: int| #![trigger ws[k]] 1 <= k < ws.len() implies {
        &&& ws[k].0.step == ws[0].0.step + k
        &&& (!lp.vertical ==> ws[k].0.x == lp.x1 / 256 + ws[k].0.step * lp.inc)
        &&& (lp.vertical ==> ws[k].0.y == lp.y1 / 256 + ws[k].0.step * lp.inc)
        &&& cut_more(ws[k - 1], ws[k], lp.vertical, false) == (ws[k].0.step < ws[0].0.count)
        &&& cut_drawn(ws[k - 1], ws[k], imgs[k - 1], imgs[k], c, lp.vertical)
    } by {
        lemma_cut_walk_steps(lp, x, y, w, false, ws, k);
        lemma_line1_walk_position(lp, x, y, w, ws, k);
        let j = k - 1;
        assert(cut_drawn(ws[j], ws[j + 1], imgs[j], imgs[j + 1], c, lp.vertical));
    }
    assert(ws.last().0.step == ws[0].0.count);
    lemma_line1_last_position(lp, x, y, w, ws);
}

/// Drawing a line cut at its end of `n` pixels along its major axis, `m`
/// the extent of the width, takes at most `max(n + m, 1)` steps; the
/// `k`-th step draws one span at the column `lp.x1 / 256 + k * inc` (the
/// row `lp.y1 / 256 + k * inc` for a mostly vertical line), and every step
/// but the last asked for another
pub proof fn lemma_line2_run_law<T: Pixel>(lp: LineParameters, x: i64, y: i64, w: i64, p: Seq<u8>, c: Rgba8,
                                           before: RenderingBase<T>, after: RenderingBase<T>)
    requires
        cut_run(lp, x, y, w, true, p, c, before, after),
    ensures
        exists|ws: Seq<CutState>, imgs: Seq<RenderingBase<T>>| {
            &&& ws.len() >= 2
            &&& imgs.len() == ws.len()
            &&& imgs[0] == before
            &&& imgs.last() == after
            &&& ws.len() - 1 <= ws[0].0.count + ws[0].0.max_extent || ws.len() == 2
            &&& forall|k: int| #![trigger ws[k]] 1 <= k < ws.len() ==> {
                &&& (!lp.vertical ==> ws[k].0.x == lp.x1 / 256 + k * lp.inc)
                &&& (lp.vertical ==> ws[k].0.y == lp.y1 / 256 + k * lp.inc)
                &&& (k < ws.len() - 1 ==> cut_more(ws[k - 1], ws[k], lp.vertical, true))
                &&& cut_drawn(ws[k - 1], ws[k], imgs[k - 1], imgs[k], c, lp.vertical)
            }
        },
{
    let (ws, imgs) = choose|ws: Seq<CutState>, imgs: Seq<RenderingBase<T>>| {
        &&& cut_walk(lp, x, y, w, true, ws)
        &&& ws.len() >= 2
        &&& imgs.len() == ws.len()
        &&& imgs[0] == before
        &&& imgs.last() == after
        &&& cut_all_more(ws, lp.vertical, true, ws.len() - 2)
        &&& !cut_more(ws[ws.len() - 2], ws.last(), lp.vertical, true)
        &&& #[trigger] cut_chain(ws, imgs, p, c, lp.vertical, true, ws.len() - 1)
    };
    let n = ws.len() - 1;
    if n >= 2 {
        let k = n - 2;
        assert(cut_more(ws[k], ws[k + 1], lp.vertical, true));
        lemma_line2_walk_position(lp, x, y, w, ws, n - 1);
    }
    assert forall|k: int| #![trigger ws[k]] 1 <= k < ws.len() implies {
        &&& (!lp.vertical ==> ws[k].0.x == lp.x1 / 256 + k * lp.inc)
        &&& (lp.vertical ==> ws[k].0.y == lp.y1 / 256 + k * lp.inc)
        &&& (k < ws.len() - 1 ==> cut_more(ws[k - 1], ws[k], lp.vertical, true))
        &&& cut_drawn(ws[k - 1], ws[k], imgs[k - 1], imgs[k], c, lp.vertical)
    } by {
        lemma_line2_walk_position(lp, x, y, w, ws, k);
        let j = k - 1;
        assert(cut_drawn(ws[j], ws[j + 1], imgs[j], imgs[j + 1], c, lp.vertical));
        if k < ws.len() - 1 {
            assert(cut_more(ws[j], ws[j + 1], lp.vertical, true));
        }
    }
}

} // verus!

verus! {

use crate::outline_aa::line0_pieces;

/// Each image of `imgs` is the one before with the next of the pieces `ps`
/// drawn as a run of steps cut at one end (the end if `end`, else the
/// start) by the cut point of the same index in `fs`
pub open spec fn cut_pieces_chain<T: Pixel>(ps: Seq<LineParameters>, fs: Seq<(i64, i64)>, w: i64, end: bool,
                                            p: Seq<u8>, c: Rgba8, imgs: Seq<RenderingBase<T>>) -> bool {
    forall|k: int| 0 <= k < ps.len() ==> #[trigger] cut_run(ps[k], fs[k].0, fs[k].1, w, end, p, c, imgs[k], imgs[k + 1])
}

/// Drawing a line cut at one end draws each of its pieces (those of
/// `line0_pieces`) in turn, each as a run of steps cut at that end
#[verifier::spinoff_prover]
#[verifier::rlimit(40)]
pub proof fn lemma_cut_line_drawn_pieces<T: Pixel>(lp: LineParameters, x: i64, y: i64, w: i64, end: bool,
                                                   p: Seq<u8>, c: Rgba8, before: RenderingBase<T>,
                                                   after: RenderingBase<T>)
    requires
        cut_line_drawn(lp, x, y, w, end, p, c, before, after),
    ensures
        exists|imgs: Seq<RenderingBase<T>>, fs: Seq<(i64, i64)>| {
            &&& imgs.len() == line0_pieces(lp).len() + 1
            &&& fs.len() == line0_pieces(lp).len()
            &&& imgs[0] == before
            &&& imgs.last() == after
            &&& #[trigger] cut_pieces_chain(line0_pieces(lp), fs, w, end, p, c, imgs)
        },
    decreases lp.len,
{
    if lp.len > LINE_MAX_LENGTH {
        let (h0, h1) = halves(lp);
        let q = cut_halves(lp, x, y, end);
        let mid = choose|mid: RenderingBase<T>| {
            &&& #[trigger] mid.wf()
            &&& cut_line_drawn(h0, q.0.0, q.0.1, w, end, p, c, before, mid)
            &&& cut_line_drawn(h1, q.1.0, q.1.1, w, end, p, c, mid, after)
        };
        lemma_cut_line_drawn_pieces(h0, q.0.0, q.0.1, w, end, p, c, before, mid);
        lemma_cut_line_drawn_pieces(h1, q.1.0, q.1.1, w, end, p, c, mid, after);
        let a = line0_pieces(h0);
        let b = line0_pieces(h1);
        let (ia, fa) = choose|imgs: Seq<RenderingBase<T>>, fs: Seq<(i64, i64)>| {
            &&& imgs.len() == a.len() + 1
            &&& fs.len() == a.len()
            &&& imgs[0] == before
            &&& imgs.last() == mid
            &&& #[trigger] cut_pieces_chain(a, fs, w, end, p, c, imgs)
        };
        let (ib, fb) = choose|imgs: Seq<RenderingBase<T>>, fs: Seq<(i64, i64)>| {
            &&& imgs.len() == b.len() + 1
            &&& fs.len() == b.len()
            &&& imgs[0] == mid
            &&& imgs.last() == after
            &&& #[trigger] cut_pieces_chain(b, fs, w, end, p, c, imgs)
        };
        let ps = a + b;
        let fs = fa + fb;
        let imgs = ia + ib.subrange(1, ib.len() as int);
        assert(line0_pieces(lp) == ps);
        assert forall|k: int| 0 <= k < ps.len() implies #[trigger] cut_run(ps[k], fs[k].0, fs[k].1, w, end, p, c,
            imgs[k], imgs[k + 1]) by {
            if k < a.len() {
                assert(ps[k] == a[k] && fs[k] == fa[k] && imgs[k] == ia[k] && imgs[k + 1] == ia[k + 1]);
            } else {
                let j = k - a.len();
                assert(ps[k] == b[j] && fs[k] == fb[j]);
                assert(imgs[k + 1] == ib[j + 1]);
                if j == 0 {
                    assert(imgs[k] == ia.last());
                } else {
                    assert(imgs[k] == ib[j]);
                }
            }
        }
        assert(imgs.last() == ib.last());
        assert(imgs[0] == ia[0]);
        assert(cut_pieces_chain(line0_pieces(lp), fs, w, end, p, c, imgs));
    } else {
        let imgs = seq![before, after];
        let f = cut_point(lp, x, y, end);
        let fs = seq![f];
        assert(line0_pieces(lp) == seq![lp]);
        assert(cut_run(line0_pieces(lp)[0], fs[0].0, fs[0].1, w, end, p, c, imgs[0], imgs[1]));
        assert(cut_pieces_chain(line0_pieces(lp), fs, w, end, p, c, imgs));
    }
}

/// Each image of `imgs` is the one before with the next of the pieces `ps`
/// drawn as a run of steps cut at both ends by the cut points of the same
/// index in `ss` and `es`
pub open spec fn cut3_pieces_chain<T: Pixel>(ps: Seq<LineParameters>, ss: Seq<(i64, i64)>, es: Seq<(i64, i64)>,
                                             w: i64, p: Seq<u8>, c: Rgba8, imgs: Seq<RenderingBase<T>>) -> bool {
    forall|k: int| 0 <= k < ps.len() ==> #[trigger] cut3_run(ps[k], ss[k].0, ss[k].1, es[k].0, es[k].1, w, p, c,
        imgs[k], imgs[k + 1])
}

/// Drawing a line cut at both ends draws each of its pieces (those of
/// `line0_pieces`) in turn, each as a run of steps cut at both ends
#[verifier::spinoff_prover]
#[verifier::rlimit(80)]
pub proof fn lemma_cut3_line_drawn_pieces<T: Pixel>(lp: LineParameters, sx: i64, sy: i64, ex: i64, ey: i64,
                                                    w: i64, p: Seq<u8>, c: Rgba8, before: RenderingBase<T>,
                                                    after: RenderingBase<T>)
    requires
        cut3_line_drawn(lp, sx, sy, ex, ey, w, p, c, before, after),
    ensures
        exists|imgs: Seq<RenderingBase<T>>, ss: Seq<(i64, i64)>, es: Seq<(i64, i64)>| {
            &&& imgs.len() == line0_pieces(lp).len() + 1
            &&& ss.len() == line0_pieces(lp).len()
            &&& es.len() == line0_pieces(lp).len()
            &&& imgs[0] == before
            &&& imgs.last() == after
            &&& #[trigger] cut3_pieces_chain(line0_pieces(lp), ss, es, w, p, c, imgs)
        },
    decreases lp.len,
{
    if lp.len > LINE_MAX_LENGTH {
        let (h0, h1) = halves(lp);
        let m = mid_cut(lp);
        let s0 = (((lp.x1 + sx) / 2) as i64, ((lp.y1 + sy) / 2) as i64);
        let e1 = (((lp.x2 + ex) / 2) as i64, ((lp.y2 + ey) / 2) as i64);
        let mid = choose|mid: RenderingBase<T>| {
            &&& #[trigger] mid.wf()
            &&& cut3_line_drawn(h0, s0.0, s0.1, m.0, m.1, w, p, c, before, mid)
            &&& cut3_line_drawn(h1, m.0, m.1, e1.0, e1.1, w, p, c, mid, after)
        };
        lemma_cut3_line_drawn_pieces(h0, s0.0, s0.1, m.0, m.1, w, p, c, before, mid);
        lemma_cut3_line_drawn_pieces(h1, m.0, m.1, e1.0, e1.1, w, p, c, mid, after);
        let a = line0_pieces(h0);
        let b = line0_pieces(h1);
        let (ia, sa, ea) = choose|imgs: Seq<RenderingBase<T>>, ss: Seq<(i64, i64)>, es: Seq<(i64, i64)>| {
            &&& imgs.len() == a.len() + 1
            &&& ss.len() == a.len()
            &&& es.len() == a.len()
            &&& imgs[0] == before
            &&& imgs.last() == mid
            &&& #[trigger] cut3_pieces_chain(a, ss, es, w, p, c, imgs)
        };
        let (ib, sb, eb) = choose|imgs: Seq<RenderingBase<T>>, ss: Seq<(i64, i64)>, es: Seq<(i64, i64)>| {
            &&& imgs.len() == b.len() + 1
            &&& ss.len() == b.len()
            &&& es.len() == b.len()
            &&& imgs[0] == mid
            &&& imgs.last() == after
            &&& #[trigger] cut3_pieces_chain(b, ss, es, w, p, c, imgs)
        };
        let ps = a + b;
        let ss = sa + sb;
        let es = ea + eb;
        let imgs = ia + ib.subrange(1, ib.len() as int);
        assert(line0_pieces(lp) == ps);
        assert forall|k: int| 0 <= k < ps.len() implies #[trigger] cut3_run(ps[k], ss[k].0, ss[k].1, es[k].0,
            es[k].1, w, p, c, imgs[k], imgs[k + 1]) by {
            if k < a.len() {
                assert(ps[k] == a[k] && ss[k] == sa[k] && es[k] == ea[k]);
                assert(imgs[k] == ia[k] && imgs[k + 1] == ia[k + 1]);
            } else {
                let j = k - a.len();
                assert(ps[k] == b[j] && ss[k] == sb[j] && es[k] == eb[j]);
                assert(imgs[k + 1] == ib[j + 1]);
                if j == 0 {
                    assert(imgs[k] == ia.last());
                } else {
                    assert(imgs[k] == ib[j]);
                }
            }
        }
        assert(imgs.last() == ib.last());
        assert(imgs[0] == ia[0]);
        assert(cut3_pieces_chain(line0_pieces(lp), ss, es, w, p, c, imgs));
    } else {
        let imgs = seq![before, after];
        let s = cut_point(lp, sx, sy, false);
        let e = cut_point(lp, ex, ey, true);
        let ss = seq![s];
        let es = seq![e];
        assert(line0_pieces(lp) == seq![lp]);
        assert(cut3_run(line0_pieces(lp)[0], ss[0].0, ss[0].1, es[0].0, es[0].1, w, p, c, imgs[0], imgs[1]));
        assert(cut3_pieces_chain(line0_pieces(lp), ss, es, w, p, c, imgs));
    }
}

} // verus!
