//! Rendering Base: drawing clipped to the image

use vstd::prelude::*;
use crate::color::Rgba8;
use crate::pixfmt::PixelDraw;
use crate::{Color, Pixel, pix, cob, span_update, fits_i64};

verus! {

/// Rendering Base
#[derive(Debug)]
pub struct RenderingBase<T> {
    /// Pixel Format
    pub pixf: T,
}

/// A run of `len` pixels from `x`, clipped to `0..=max`: whether anything
/// is left to draw, where it starts, how long it is, and how far into the
/// run it starts
pub open spec fn clip_run(x: int, len: int, max: int) -> (bool, int, int, int) {
    let (x1, len1, off) = if x < 0 { (0int, len + x, -x) } else { (x, len, 0int) };
    if x < 0 && len1 <= 0 {
        (false, x1, len1, off)
    } else if x1 + len1 > max {
        let len2 = max - x1 + 1;
        (len2 > 0, x1, len2, off)
    } else {
        (true, x1, len1, off)
    }
}

/// The arithmetic of clipping a run stays in range
pub open spec fn clip_fits(x: int, len: int) -> bool {
    if x < 0 { x > i64::MIN && fits_i64(len + x) } else { fits_i64(x + len) }
}

/// The image after `blend_hline(x1, y, x2, c, cover)`: the pixels of row
/// `y` between `x1` and `x2`, clipped to the image, copied or blended
pub open spec fn hline_done<T: Pixel, C: Color>(old: &RenderingBase<T>, new: &RenderingBase<T>,
                                                x1: int, y: int, x2: int, c: C, cover: u64) -> bool {
    let w = old.pixf.width_spec() as int;
    let h = old.pixf.height_spec() as int;
    let lo = if x2 > x1 { x1 } else { x2 };
    let hi = if x2 > x1 { x2 } else { x1 };
    let a = if lo < 0 { 0 } else { lo };
    let b = if hi > w - 1 { w - 1 } else { hi };
    &&& new.wf()
    &&& if 0 <= y < h && lo <= w - 1 && hi >= 0 {
        span_update(&old.pixf, &new.pixf, a, y, b - a + 1, false,
            |i: int, px: Seq<u8>| cob::<T, C>(px, c, cover))
    } else {
        new.pixf == old.pixf
    }
}

/// The image after `blend_solid_hspan(x, y, len, c, covers)`: the run of
/// row `y` clipped to the image, each pixel copied or blended with its
/// cover
pub open spec fn solid_hspan_done<T: Pixel, C: Color>(old: &RenderingBase<T>, new: &RenderingBase<T>,
                                                      x: int, y: int, len: int, c: C,
                                                      covers: Seq<u64>) -> bool {
    let (draw, x1, n, off) = clip_run(x, len, old.pixf.width_spec() - 1);
    &&& new.wf()
    &&& if 0 <= y < old.pixf.height_spec() && draw {
        span_update(&old.pixf, &new.pixf, x1, y, n, false,
            |i: int, px: Seq<u8>| cob::<T, C>(px, c, covers[off + i]))
    } else {
        new.pixf == old.pixf
    }
}

/// The image after `blend_solid_vspan(x, y, len, c, covers)`: the pixels of
/// column `x` from row `y` on, clipped to the image, each combined with `c`
/// at its coverage
pub open spec fn solid_vspan_done<T: Pixel, C: Color>(old: &RenderingBase<T>, new: &RenderingBase<T>,
                                                      x: int, y: int, len: int, c: C,
                                                      covers: Seq<u64>) -> bool {
    let (draw, y1, n, off) = clip_run(y, len, old.pixf.height_spec() - 1);
    &&& new.wf()
    &&& if 0 <= x < old.pixf.width_spec() && draw {
        span_update(&old.pixf, &new.pixf, x, y1, n, true,
            |i: int, px: Seq<u8>| cob::<T, C>(px, c, covers[off + i]))
    } else {
        new.pixf == old.pixf
    }
}

impl<T: Pixel> RenderingBase<T> {
    /// The image can hand out its limits as `i64`
    pub open spec fn wf(&self) -> bool {
        &&& self.pixf.wf()
        &&& self.pixf.width_spec() <= i64::MAX
        &&& self.pixf.height_spec() <= i64::MAX
    }

    /// Create new Rendering Base from Pixel Format
    pub fn new(pixf: T) -> (s: RenderingBase<T>)
        ensures
            s.pixf == pixf,
    {
        RenderingBase { pixf }
    }

    pub fn as_bytes(&self) -> (r: &[u8])
        ensures
            r@ == self.pixf.bytes(),
    {
        self.pixf.as_bytes()
    }

    /// Set Image to a single color
    pub fn clear(&mut self, color: Rgba8)
        requires
            old(self).pixf.wf(),
        ensures
            final(self).pixf.wf(),
            final(self).pixf.width_spec() == old(self).pixf.width_spec(),
            final(self).pixf.height_spec() == old(self).pixf.height_spec(),
            forall|px: int, py: int| 0 <= px < old(self).pixf.width_spec() && 0 <= py < old(self).pixf.height_spec()
                ==> #[trigger] pix(&final(self).pixf, px, py) == T::encode(color.rgba()),
    {
        self.pixf.fill(color);
    }

    /// Get Image size: the least and greatest x, then y
    pub fn limits(&self) -> (r: (i64, i64, i64, i64))
        requires
            self.wf(),
        ensures
            r == (0i64, (self.pixf.width_spec() - 1) as i64, 0i64, (self.pixf.height_spec() - 1) as i64),
    {
        let w: i64 = self.pixf.width() as i64;
        let h: i64 = self.pixf.height() as i64;
        (0, w - 1, 0, h - 1)
    }

    /// Blend a color along y-row from x1 to x2
    pub fn blend_hline<C: Color>(&mut self, x1: i64, y: i64, x2: i64, c: C, cover: u64)
        requires
            old(self).wf(),
        ensures
            hline_done(old(self), final(self), x1 as int, y as int, x2 as int, c, cover),
    {
        let (xmin, xmax, ymin, ymax) = self.limits();
        let (x1, x2) = if x2 > x1 { (x1, x2) } else { (x2, x1) };
        if y > ymax || y < ymin || x1 > xmax || x2 < xmin {
            return;
        }
        let x1 = if x1 > xmin { x1 } else { xmin };
        let x2 = if x2 < xmax { x2 } else { xmax };
        self.pixf.blend_hline(x1, y, x2 - x1 + 1, c, cover);
    }

    /// Blend a color from (x,y) with variable covers
    pub fn blend_solid_hspan<C: Color>(&mut self, x: i64, y: i64, len: i64, c: C, covers: &[u64])
        requires
            old(self).wf(),
            clip_fits(x as int, len as int),
            ({
                let (draw, x1, n, off) = clip_run(x as int, len as int, old(self).pixf.width_spec() - 1);
                0 <= y < old(self).pixf.height_spec() && draw ==> 0 <= n && off + n <= covers@.len()
            }),
        ensures
            solid_hspan_done(old(self), final(self), x as int, y as int, len as int, c, covers@),
    {
        let (xmin, xmax, ymin, ymax) = self.limits();
        if y > ymax || y < ymin {
            return;
        }
        let ghost cr = clip_run(x as int, len as int, xmax as int);
        let (mut x, mut len, mut off) = (x, len, 0i64);
        if x < xmin {
            len -= xmin - x;
            if len <= 0 {
                return;
            }
            off = off + xmin - x;
            x = xmin;
        }
        if x + len > xmax {
            len = xmax - x + 1;
            if len <= 0 {
                return;
            }
        }
        assert(cr == (true, x as int, len as int, off as int));
        assert(0 <= y < self.pixf.height_spec());
        let ncovers = covers.len();
        assert(0 <= off && off + len <= ncovers);
        let covers_win = vstd::slice::slice_subrange(covers, off as usize, (off + len) as usize);
        let ghost old0 = self.pixf;
        self.pixf.blend_solid_hspan(x, y, len, c, covers_win);
        proof {
            let f = |i: int, px: Seq<u8>| cob::<T, C>(px, c, covers_win@[i]);
            let g = |i: int, px: Seq<u8>| cob::<T, C>(px, c, covers@[off + i]);
            assert forall|px: int, py: int| 0 <= px < old0.width_spec() && 0 <= py < old0.height_spec()
                implies #[trigger] pix(&self.pixf, px, py) == (if crate::in_span(px, py, x as int, y as int, len as int, false) {
                    g(crate::span_index(px, py, x as int, y as int, false), pix(&old0, px, py))
                } else {
                    pix(&old0, px, py)
                }) by {
                assert(pix(&self.pixf, px, py) == (if crate::in_span(px, py, x as int, y as int, len as int, false) {
                    f(crate::span_index(px, py, x as int, y as int, false), pix(&old0, px, py))
                } else {
                    pix(&old0, px, py)
                }));
            }
        }
    }

    /// Blend a color from (x,y) with variable covers
    pub fn blend_solid_vspan<C: Color>(&mut self, x: i64, y: i64, len: i64, c: C, covers: &[u64])
        requires
            old(self).wf(),
            clip_fits(y as int, len as int),
            ({
                let (draw, y1, n, off) = clip_run(y as int, len as int, old(self).pixf.height_spec() - 1);
                0 <= x < old(self).pixf.width_spec() && draw ==> 0 <= n && off + n <= covers@.len()
            }),
        ensures
            solid_vspan_done(old(self), final(self), x as int, y as int, len as int, c, covers@),
    {
        let (xmin, xmax, ymin, ymax) = self.limits();
        if x > xmax || x < xmin {
            return;
        }
        let ghost cr = clip_run(y as int, len as int, ymax as int);
        let (mut y, mut len, mut off) = (y, len, 0i64);
        if y < ymin {
            len -= ymin - y;
            if len <= 0 {
                return;
            }
            off = off + ymin - y;
            y = ymin;
        }
        if y + len > ymax {
            len = ymax - y + 1;
            if len <= 0 {
                return;
            }
        }
        assert(cr == (true, y as int, len as int, off as int));
        assert(0 <= x < self.pixf.width_spec());
        let ncovers = covers.len();
        assert(0 <= off && off + len <= ncovers);
        let covers_win = vstd::slice::slice_subrange(covers, off as usize, (off + len) as usize);
        let ghost old0 = self.pixf;
        self.pixf.blend_solid_vspan(x, y, len, c, covers_win);
        proof {
            let f = |i: int, px: Seq<u8>| cob::<T, C>(px, c, covers_win@[i]);
            let g = |i: int, px: Seq<u8>| cob::<T, C>(px, c, covers@[off + i]);
            assert forall|px: int, py: int| 0 <= px < old0.width_spec() && 0 <= py < old0.height_spec()
                implies #[trigger] pix(&self.pixf, px, py) == (if crate::in_span(px, py, x as int, y as int, len as int, true) {
                    g(crate::span_index(px, py, x as int, y as int, true), pix(&old0, px, py))
                } else {
                    pix(&old0, px, py)
                }) by {
                assert(pix(&self.pixf, px, py) == (if crate::in_span(px, py, x as int, y as int, len as int, true) {
                    f(crate::span_index(px, py, x as int, y as int, true), pix(&old0, px, py))
                } else {
                    pix(&old0, px, py)
                }));
            }
        }
    }

    /// Blend a collection of `colors` from (x,y) with either a collection
    /// of `covers` or a single `cover`, clipped to the image
    pub fn blend_color_hspan<C: Color>(&mut self, x: i64, y: i64, len: i64, colors: &[C],
                                   covers: &[u64], cover: u64)
        requires
            old(self).wf(),
            clip_fits(x as int, len as int),
            ({
                let (draw, x1, n, off) = clip_run(x as int, len as int, old(self).pixf.width_spec() - 1);
                0 <= y < old(self).pixf.height_spec() && draw ==> {
                    &&& 0 <= n && off + n <= colors@.len()
                    &&& covers@.len() != 0 ==> off + n <= covers@.len()
                }
            }),
        ensures
            final(self).wf(),
            ({
                let (draw, x1, n, off) = clip_run(x as int, len as int, old(self).pixf.width_spec() - 1);
                if 0 <= y < old(self).pixf.height_spec() && draw {
                    span_update(&old(self).pixf, &final(self).pixf, x1, y as int, n, false,
                        |i: int, px: Seq<u8>| cob::<T, C>(px, colors@[off + i],
                            if covers@.len() != 0 { covers@[off + i] } else { cover }))
                } else {
                    final(self).pixf == old(self).pixf
                }
            }),
    {
        let (xmin, xmax, ymin, ymax) = self.limits();
        if y > ymax || y < ymin {
            return;
        }
        let ghost cr = clip_run(x as int, len as int, xmax as int);
        let (mut x, mut len, mut off) = (x, len, 0i64);
        if x < xmin {
            len -= xmin - x;
            if len <= 0 {
                return;
            }
            off = off + xmin - x;
            x = xmin;
        }
        if x + len > xmax {
            len = xmax - x + 1;
            if len <= 0 {
                return;
            }
        }
        assert(cr == (true, x as int, len as int, off as int));
        assert(0 <= y < self.pixf.height_spec());
        let ncolors = colors.len();
        let ncovers = covers.len();
        assert(0 <= off && off + len <= ncolors);
        let covers_win = if ncovers == 0 {
            vstd::slice::slice_subrange(covers, 0, 0)
        } else {
            vstd::slice::slice_subrange(covers, off as usize, (off + len) as usize)
        };
        let colors_win = vstd::slice::slice_subrange(colors, off as usize, (off + len) as usize);
        let ghost old0 = self.pixf;
        proof { old0.lemma_layout(); }
        self.pixf.blend_color_hspan(x, y, len, colors_win, covers_win, cover);
        proof {
            let f = |i: int, px: Seq<u8>| cob::<T, C>(px, colors_win@[i],
                if covers_win@.len() != 0 { covers_win@[i] } else { cover });
            let g = |i: int, px: Seq<u8>| cob::<T, C>(px, colors@[off + i],
                if covers@.len() != 0 { covers@[off + i] } else { cover });
            assert forall|px: int, py: int| 0 <= px < old0.width_spec() && 0 <= py < old0.height_spec()
                implies #[trigger] pix(&self.pixf, px, py) == (if crate::in_span(px, py, x as int, y as int, len as int, false) {
                    g(crate::span_index(px, py, x as int, y as int, false), pix(&old0, px, py))
                } else {
                    pix(&old0, px, py)
                }) by {
                assert(pix(&self.pixf, px, py) == (if crate::in_span(px, py, x as int, y as int, len as int, false) {
                    f(crate::span_index(px, py, x as int, y as int, false), pix(&old0, px, py))
                } else {
                    pix(&old0, px, py)
                }));
            }
        }
    }

    /// Blend a collection of `colors` from (x,y) with either a collection
    /// of `covers` or a single `cover`, clipped to the image
    pub fn blend_color_vspan<C: Color>(&mut self, x: i64, y: i64, len: i64, colors: &[C],
                                   covers: &[u64], cover: u64)
        requires
            old(self).wf(),
            clip_fits(y as int, len as int),
            ({
                let (draw, y1, n, off) = clip_run(y as int, len as int, old(self).pixf.height_spec() - 1);
                0 <= x < old(self).pixf.width_spec() && draw ==> {
                    &&& 0 <= n && off + n <= colors@.len()
                    &&& covers@.len() != 0 ==> off + n <= covers@.len()
                }
            }),
        ensures
            final(self).wf(),
            ({
                let (draw, y1, n, off) = clip_run(y as int, len as int, old(self).pixf.height_spec() - 1);
                if 0 <= x < old(self).pixf.width_spec() && draw {
                    span_update(&old(self).pixf, &final(self).pixf, x as int, y1, n, true,
                        |i: int, px: Seq<u8>| cob::<T, C>(px, colors@[off + i],
                            if covers@.len() != 0 { covers@[off + i] } else { cover }))
                } else {
                    final(self).pixf == old(self).pixf
                }
            }),
    {
        let (xmin, xmax, ymin, ymax) = self.limits();
        if x > xmax || x < xmin {
            return;
        }
        let ghost cr = clip_run(y as int, len as int, ymax as int);
        let (mut y, mut len, mut off) = (y, len, 0i64);
        if y < ymin {
            len -= ymin - y;
            if len <= 0 {
                return;
            }
            off = off + ymin - y;
            y = ymin;
        }
        if y + len > ymax {
            len = ymax - y + 1;
            if len <= 0 {
                return;
            }
        }
        assert(cr == (true, y as int, len as int, off as int));
        assert(0 <= x < self.pixf.width_spec());
        let ncolors = colors.len();
        let ncovers = covers.len();
        assert(0 <= off && off + len <= ncolors);
        let covers_win = if ncovers == 0 {
            vstd::slice::slice_subrange(covers, 0, 0)
        } else {
            vstd::slice::slice_subrange(covers, off as usize, (off + len) as usize)
        };
        let colors_win = vstd::slice::slice_subrange(colors, off as usize, (off + len) as usize);
        let ghost old0 = self.pixf;
        proof { old0.lemma_layout(); }
        self.pixf.blend_color_vspan(x, y, len, colors_win, covers_win, cover);
        proof {
            let f = |i: int, px: Seq<u8>| cob::<T, C>(px, colors_win@[i],
                if covers_win@.len() != 0 { covers_win@[i] } else { cover });
            let g = |i: int, px: Seq<u8>| cob::<T, C>(px, colors@[off + i],
                if covers@.len() != 0 { covers@[off + i] } else { cover });
            assert forall|px: int, py: int| 0 <= px < old0.width_spec() && 0 <= py < old0.height_spec()
                implies #[trigger] pix(&self.pixf, px, py) == (if crate::in_span(px, py, x as int, y as int, len as int, true) {
                    g(crate::span_index(px, py, x as int, y as int, true), pix(&old0, px, py))
                } else {
                    pix(&old0, px, py)
                }) by {
                assert(pix(&self.pixf, px, py) == (if crate::in_span(px, py, x as int, y as int, len as int, true) {
                    f(crate::span_index(px, py, x as int, y as int, true), pix(&old0, px, py))
                } else {
                    pix(&old0, px, py)
                }));
            }
        }
    }
}

} // verus!
