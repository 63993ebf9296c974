//! The outline renderer that draws lines with an image pattern, and the
//! interpolator that walks such a line

use vstd::prelude::*;
use crate::base::RenderingBase;
use crate::color::Rgba8;
use crate::fixed::{iabs, lemma_mul_bound};
use crate::line_interp::{LineParameters, LineInterpolatorAA, back_pos, first_above, lemma_first_above,
                         count_neg, pixels_before, lemma_count_neg_bound, dist_entry,
                         step_inc_x, step_dec_x, step_inc_y, step_dec_y, step_fits, WIDTH_LIMIT,
                         DIST_LIMIT, DIST_SENTINEL};
use crate::render::{LineInterpolator, DistanceInterpolator4, dda_dec_n};
use crate::{fits_i64, POLY_SUBPIXEL_SHIFT, POLY_SUBPIXEL_SCALE};

verus! {

/// `d` after a step of one pixel in +x, the row having moved by `v`
pub open spec fn di4_inc_x(d: DistanceInterpolator4, v: i64) -> DistanceInterpolator4 {
    DistanceInterpolator4 {
        dist: step_inc_x(d.dist as int, d.dx as int, d.dy as int, v as int) as i64,
        dist_start: step_inc_x(d.dist_start as int, d.dx_start as int, d.dy_start as int, v as int) as i64,
        dist_pict: step_inc_x(d.dist_pict as int, d.dx_pict as int, d.dy_pict as int, v as int) as i64,
        dist_end: step_inc_x(d.dist_end as int, d.dx_end as int, d.dy_end as int, v as int) as i64,
        ..d
    }
}

/// `d` after a step of one pixel in -x, the row having moved by `v`
pub open spec fn di4_dec_x(d: DistanceInterpolator4, v: i64) -> DistanceInterpolator4 {
    DistanceInterpolator4 {
        dist: step_dec_x(d.dist as int, d.dx as int, d.dy as int, v as int) as i64,
        dist_start: step_dec_x(d.dist_start as int, d.dx_start as int, d.dy_start as int, v as int) as i64,
        dist_pict: step_dec_x(d.dist_pict as int, d.dx_pict as int, d.dy_pict as int, v as int) as i64,
        dist_end: step_dec_x(d.dist_end as int, d.dx_end as int, d.dy_end as int, v as int) as i64,
        ..d
    }
}

/// `d` after a step of one pixel in +y, the column having moved by `v`
pub open spec fn di4_inc_y(d: DistanceInterpolator4, v: i64) -> DistanceInterpolator4 {
    DistanceInterpolator4 {
        dist: step_inc_y(d.dist as int, d.dx as int, d.dy as int, v as int) as i64,
        dist_start: step_inc_y(d.dist_start as int, d.dx_start as int, d.dy_start as int, v as int) as i64,
        dist_pict: step_inc_y(d.dist_pict as int, d.dx_pict as int, d.dy_pict as int, v as int) as i64,
        dist_end: step_inc_y(d.dist_end as int, d.dx_end as int, d.dy_end as int, v as int) as i64,
        ..d
    }
}

/// `d` after a step of one pixel in -y, the column having moved by `v`
pub open spec fn di4_dec_y(d: DistanceInterpolator4, v: i64) -> DistanceInterpolator4 {
    DistanceInterpolator4 {
        dist: step_dec_y(d.dist as int, d.dx as int, d.dy as int, v as int) as i64,
        dist_start: step_dec_y(d.dist_start as int, d.dx_start as int, d.dy_start as int, v as int) as i64,
        dist_pict: step_dec_y(d.dist_pict as int, d.dx_pict as int, d.dy_pict as int, v as int) as i64,
        dist_end: step_dec_y(d.dist_end as int, d.dx_end as int, d.dy_end as int, v as int) as i64,
        ..d
    }
}

/// The distances and their steps leave room for millions of steps
pub open spec fn di4_in_range(d: DistanceInterpolator4) -> bool {
    &&& iabs(d.dist as int) <= 0x400_0000_0000_0000
    &&& iabs(d.dist_start as int) <= 0x400_0000_0000_0000
    &&& iabs(d.dist_pict as int) <= 0x400_0000_0000_0000
    &&& iabs(d.dist_end as int) <= 0x400_0000_0000_0000
    &&& iabs(d.dx as int) <= 0x4_0000_0000 && iabs(d.dy as int) <= 0x4_0000_0000
    &&& iabs(d.dx_start as int) <= 0x4_0000_0000 && iabs(d.dy_start as int) <= 0x4_0000_0000
    &&& iabs(d.dx_pict as int) <= 0x4_0000_0000 && iabs(d.dy_pict as int) <= 0x4_0000_0000
    &&& iabs(d.dx_end as int) <= 0x4_0000_0000 && iabs(d.dy_end as int) <= 0x4_0000_0000
}

fn near(v: i64, b: i64) -> (r: bool)
    requires
        b >= 0,
    ensures
        r == (iabs(v as int) <= b),
{
    -b <= v && v <= b
}

/// Whether the distances and steps of `d` are within the bounds the
/// image interpolator starts from
pub fn distances_in_range(d: &DistanceInterpolator4) -> (r: bool)
    ensures
        r == di4_in_range(*d),
{
    let big: i64 = 0x400_0000_0000_0000;
    let step: i64 = 0x4_0000_0000;
    near(d.dist, big) && near(d.dist_start, big) && near(d.dist_pict, big) && near(d.dist_end, big)
        && near(d.dx, step) && near(d.dy, step) && near(d.dx_start, step) && near(d.dy_start, step)
        && near(d.dx_pict, step) && near(d.dy_pict, step) && near(d.dx_end, step) && near(d.dy_end, step)
}

/// The distances `j` pixels back from the start of the line
pub open spec fn back_di4(lp: LineParameters, di0: DistanceInterpolator4, j: nat) -> DistanceInterpolator4
    decreases j,
{
    if j == 0 {
        di0
    } else {
        let prev = back_di4(lp, di0, (j - 1) as nat);
        let d = (back_pos(lp, j) - back_pos(lp, (j - 1) as nat)) as i64;
        if lp.vertical {
            if lp.inc > 0 { di4_dec_y(prev, d) } else { di4_inc_y(prev, d) }
        } else {
            if lp.inc > 0 { di4_dec_x(prev, d) } else { di4_inc_x(prev, d) }
        }
    }
}

/// Stepping back along a line moves each distance by at most one step
#[verifier::rlimit(40)]
pub proof fn lemma_back_di4(lp: LineParameters, di0: DistanceInterpolator4, j: nat)
    requires
        di4_in_range(di0),
        j <= 0x100_0000,
    ensures
        back_di4(lp, di0, j).same_steps(&di0),
        iabs(back_di4(lp, di0, j).dist - di0.dist) <= j * 0x8_0000_0000,
        iabs(back_di4(lp, di0, j).dist_start - di0.dist_start) <= j * 0x8_0000_0000,
        iabs(back_di4(lp, di0, j).dist_pict - di0.dist_pict) <= j * 0x8_0000_0000,
        iabs(back_di4(lp, di0, j).dist_end - di0.dist_end) <= j * 0x8_0000_0000,
    decreases j,
{
    if j > 0 {
        lemma_back_di4(lp, di0, (j - 1) as nat);
        assert(((j - 1) as nat) * 0x8_0000_0000 + 0x8_0000_0000 == j * 0x8_0000_0000);
        assert((j as int) * 0x8_0000_0000 <= 0x80_0000_0000_0000_0000) by (nonlinear_arith)
            requires j <= 0x100_0000;
    }
}

/// Number of pixels before the start line in the spread `j` steps back
/// (the first step always counts one more)
pub open spec fn back_npix4(lp: LineParameters, di0: DistanceInterpolator4, m: int, j: nat) -> int {
    let d = back_di4(lp, di0, j);
    let step = if lp.vertical { d.dy_start as int } else { -d.dx_start };
    (if j == 1 { 1int } else { 0 }) + pixels_before(d.dist_start as int, step, m)
}

} // verus!

verus! {

/// Line Interpolator that draws with an image pattern
#[derive(Debug)]
pub struct LineInterpolatorImage {
    pub lp: LineParameters,
    pub li: LineInterpolator,
    pub di: DistanceInterpolator4,
    pub x: i64,
    pub y: i64,
    pub old_x: i64,
    pub old_y: i64,
    pub count: i64,
    pub width: i64,
    pub max_extent: i64,
    pub start: i64,
    pub step: i64,
    /// Distance of each pixel of a spread from its center, ending in a sentinel
    pub dist_pos: Vec<i64>,
    /// Colors of the pixels of a spread
    pub colors: Vec<Rgba8>,
}

/// The state `LineInterpolatorImage::new` leaves after `k` steps back from
/// the start of the line
pub open spec fn image_start(lp: LineParameters, di0: DistanceInterpolator4, w: i64,
                             s: LineInterpolatorImage, k: int) -> bool {
    let kn = k as nat;
    let m = first_above(s.dist_pos@, w as int, 1);
    let f = dda_dec_n(LineInterpolatorAA::line_dda(lp), kn);
    &&& 1 <= k <= s.max_extent + 1
    &&& s.di == back_di4(lp, di0, kn)
    &&& s.li.fields() == (f.0, f.1, f.2, f.3 - f.0, f.4)
    &&& (lp.vertical ==> {
        &&& s.y == lp.y1 / 256 - k * lp.inc
        &&& s.x == back_pos(lp, kn)
        &&& s.old_x == s.x
        &&& s.old_y == lp.y1 / 256
    })
    &&& (!lp.vertical ==> {
        &&& s.x == lp.x1 / 256 - k * lp.inc
        &&& s.y == back_pos(lp, kn)
        &&& s.old_y == s.y
        &&& s.old_x == lp.x1 / 256
    })
    // steps back stop at the first one with no pixel before the start, or
    // after max_extent + 1 steps
    &&& forall|j: int| 1 <= j < k ==> #[trigger] back_npix4(lp, di0, m, j as nat) != 0 && j <= s.max_extent
    &&& if back_npix4(lp, di0, m, kn) == 0 {
        s.step == -(k - 1) - s.max_extent
    } else {
        k > s.max_extent && s.step == -k - s.max_extent
    }
}

impl LineInterpolatorImage {
    /// The tables and the fields that do not depend on the walk back
    pub open spec fn setup(&self, lp: LineParameters, w: i64, pattern_start: i64, pattern_width: i64) -> bool {
        &&& self.lp == lp
        &&& self.count == (if lp.vertical { iabs(lp.y2 / 256 - lp.y1 / 256) }
                else { iabs(lp.x2 / 256 - lp.x1 / 256) })
        &&& self.width == w
        &&& self.max_extent == (w + 256) / 256
        &&& self.start == pattern_start + (self.max_extent + 2) * pattern_width
        &&& self.dist_pos@.len() == 65
        &&& self.dist_pos@[64] == DIST_SENTINEL
        &&& forall|j: int| 0 <= j < 65 ==> iabs(#[trigger] self.dist_pos@[j] as int) <= DIST_LIMIT
        &&& forall|i: int| 0 <= i < 64 ==> #[trigger] self.dist_pos@[i]
                == dist_entry(LineInterpolatorAA::table_dda(lp), w + 512, i)
        &&& self.colors@.len() == 132
        &&& forall|i: int| 0 <= i < 132 ==> #[trigger] self.colors@[i] == (Rgba8 { r: 0, g: 0, b: 0, a: 255 })
    }

    /// Return if the line is more vertical than horizontal
    pub fn vertical(&self) -> (r: bool)
        ensures
            r == self.lp.vertical,
    {
        self.lp.vertical
    }

    /// Create an interpolator along `lp` for a line `subpixel_width` wide,
    /// with the distances `di` to the line and to its ends, and the pattern
    /// `pattern_width` wide starting at `pattern_start`
    ///
    /// Steps back from the start while pixels of the spread lie before the
    /// start line, at most one more than the extent of the line width.
    pub fn new(lp: LineParameters, subpixel_width: i64, pattern_start: i64, pattern_width: i64,
               di: DistanceInterpolator4) -> (s: Self)
        requires
            lp.wf(),
            0 <= subpixel_width < WIDTH_LIMIT,
            di4_in_range(di),
            fits_i64(((subpixel_width + 256) / 256 + 2) * pattern_width),
            fits_i64(pattern_start + ((subpixel_width + 256) / 256 + 2) * pattern_width),
        ensures
            s.setup(lp, subpixel_width, pattern_start, pattern_width),
            exists|k: int| #[trigger] image_start(lp, di, subpixel_width, s, k),
    {
        let li0 = LineInterpolatorAA::new(lp, subpixel_width);
        let ghost f0 = li0.li.fields();
        let dist_pos = li0.dist;
        let mut m_li = li0.li;
        let mut x: i64 = li0.x;
        let mut y: i64 = li0.y;
        let mut old_x: i64 = li0.old_x;
        let mut old_y: i64 = li0.old_y;
        let count: i64 = li0.count;
        let width: i64 = subpixel_width;
        proof { crate::fixed::lemma_shr8((width + POLY_SUBPIXEL_SCALE) as i64); }
        let max_extent: i64 = (width + POLY_SUBPIXEL_SCALE) >> POLY_SUBPIXEL_SHIFT;
        let mut step: i64 = 0;
        let start: i64 = pattern_start + (max_extent + 2) * pattern_width;
        let colors: Vec<Rgba8> = vec![Rgba8::black(); 132];
        let mut di = di;
        let ghost di0 = di;
        let ghost m = first_above(dist_pos@, subpixel_width as int, 1);
        let ghost mut k: int = 0;
        let mut npix: i64 = 1;
        proof {
            crate::line_interp::lemma_line_dda_bounds(lp);
            reveal(back_pos);
        }
        if lp.vertical {
            loop
                invariant_except_break
                    k == -step,
                    0 <= k <= max_extent,
                    npix == (if k == 0 { 1int } else { 0 }),
                    m_li.fields() == dda_dec_n(f0, k as nat),
                    x == back_pos(lp, k as nat),
                    old_x == x,
                    y == lp.y1 / 256 - k * lp.inc,
                    di == back_di4(lp, di0, k as nat),
                    forall|j: int| 1 <= j <= k ==> #[trigger] back_npix4(lp, di0, m, j as nat) != 0,
                invariant
                    old_y == lp.y1 / 256,
                    li0.fresh(lp, subpixel_width),
                    dist_pos == li0.dist,
                    width == subpixel_width,
                    max_extent == (subpixel_width + 256) / 256,
                    di4_in_range(di0),
                    f0 == LineInterpolatorAA::line_dda(lp),
                    m == first_above(dist_pos@, subpixel_width as int, 1),
                    lp.wf(), lp.vertical, lp.inc == 1 || lp.inc == -1,
                    max_extent <= 0x80_0001,
                    0 < f0.0 <= 0x200_0001, iabs(f0.1) <= 257,
                    iabs(f0.2) <= 0x400_0002, iabs(f0.3) <= 0x400_0002,
                    f0.4 == 0,
                ensures
                    1 <= k <= max_extent + 1,
                    m_li.fields() == dda_dec_n(f0, k as nat),
                    x == back_pos(lp, k as nat),
                    old_x == x,
                    y == lp.y1 / 256 - k * lp.inc,
                    di == back_di4(lp, di0, k as nat),
                    forall|j: int| 1 <= j < k ==> #[trigger] back_npix4(lp, di0, m, j as nat) != 0 && j <= max_extent,
                    if back_npix4(lp, di0, m, k as nat) == 0 {
                        step == -(k - 1)
                    } else {
                        k > max_extent && step == -k
                    },
                decreases max_extent - k,
            {
                proof {
                    crate::render::lemma_dda_dec_n_bounds(f0, k as nat);
                    lemma_mul_bound(k, iabs(f0.1) + 1, 0x80_0001, 258);
                    lemma_mul_bound(k, iabs(f0.2) + iabs(f0.0), 0x80_0001, 0x600_0003);
                    lemma_back_di4(lp, di0, k as nat);
                    assert((k + 1) * lp.inc == k * lp.inc + lp.inc) by (nonlinear_arith);
                    lemma_mul_bound(k, lp.inc as int, 0x80_0001, 1);
                }
                m_li.dec();
                y -= lp.inc;
                proof {
                    crate::fixed::lemma_shr8((lp.x1 + m_li.y) as i64);
                    reveal(back_pos);
                }
                x = (lp.x1 + m_li.y) >> POLY_SUBPIXEL_SHIFT;
                let ghost prev = di;
                if lp.inc > 0 {
                    proof { di.lemma_step_fits((x - old_x) as int); }
                    di.dec_y_by(x - old_x);
                } else {
                    proof { di.lemma_step_fits((x - old_x) as int); }
                    di.inc_y_by(x - old_x);
                }
                old_x = x;
                proof {
                    k = k + 1;
                    assert(di == back_di4(lp, di0, k as nat));
                    lemma_back_di4(lp, di0, k as nat);
                }

                let mut dist1_start: i64 = di.dist_start;
                let mut dist2_start: i64 = di.dist_start;
                let ghost ds: int = di.dist_start as int;
                let ghost npix0: int = npix as int;
                let mut dx: usize = 0;
                if dist1_start < 0 {
                    npix += 1;
                }
                loop
                    invariant_except_break
                        dx < 64,
                        forall|t: int| 1 <= t <= dx ==> #[trigger] dist_pos@[t] <= width,
                    invariant
                        0 <= dx <= 64,
                        dist1_start == ds + dx * di.dy_start,
                        dist2_start == ds - dx * di.dy_start,
                        npix == npix0 + (if ds < 0 { 1int } else { 0 }) + count_neg(ds, di.dy_start as int, dx as int),
                        iabs(ds) <= 0x1000_0000_0000_0000,
                        iabs(di.dy_start as int) <= 0x4_0000_0000,
                        0 <= npix0 <= 1,
                        li0.fresh(lp, subpixel_width),
                        dist_pos == li0.dist,
                        width == subpixel_width,
                    ensures
                        1 <= dx <= 64,
                        dist_pos@[dx as int] > width,
                        forall|t: int| 1 <= t < dx ==> #[trigger] dist_pos@[t] <= width,
                        npix == npix0 + pixels_before(ds, di.dy_start as int, dx as int),
                    decreases 64 - dx,
                {
                    proof {
                        lemma_mul_bound(dx as int + 1, di.dy_start as int, 64, 0x4_0000_0000);
                        lemma_mul_bound(dx as int, di.dy_start as int, 64, 0x4_0000_0000);
                        lemma_count_neg_bound(ds, di.dy_start as int, dx as int);
                        assert((dx as int + 1) * di.dy_start == dx as int * di.dy_start + di.dy_start)
                            by (nonlinear_arith);
                    }
                    dist1_start += di.dy_start;
                    dist2_start -= di.dy_start;
                    if dist1_start < 0 {
                        npix += 1;
                    }
                    if dist2_start < 0 {
                        npix += 1;
                    }
                    dx += 1;
                    if dist_pos[dx] > width {
                        break;
                    }
                }
                proof {
                    lemma_first_above(dist_pos@, width as int, 1, dx as int);
                }
                if npix == 0 {
                    break;
                }
                npix = 0;
                step -= 1;
                if step < -max_extent {
                    break;
                }
            }
        } else {
            loop
                invariant_except_break
                    k == -step,
                    0 <= k <= max_extent,
                    npix == (if k == 0 { 1int } else { 0 }),
                    m_li.fields() == dda_dec_n(f0, k as nat),
                    y == back_pos(lp, k as nat),
                    old_y == y,
                    x == lp.x1 / 256 - k * lp.inc,
                    di == back_di4(lp, di0, k as nat),
                    forall|j: int| 1 <= j <= k ==> #[trigger] back_npix4(lp, di0, m, j as nat) != 0,
                invariant
                    old_x == lp.x1 / 256,
                    li0.fresh(lp, subpixel_width),
                    dist_pos == li0.dist,
                    width == subpixel_width,
                    max_extent == (subpixel_width + 256) / 256,
                    di4_in_range(di0),
                    f0 == LineInterpolatorAA::line_dda(lp),
                    m == first_above(dist_pos@, subpixel_width as int, 1),
                    lp.wf(), !lp.vertical, lp.inc == 1 || lp.inc == -1,
                    max_extent <= 0x80_0001,
                    0 < f0.0 <= 0x200_0001, iabs(f0.1) <= 257,
                    iabs(f0.2) <= 0x400_0002, iabs(f0.3) <= 0x400_0002,
                    f0.4 == 0,
                ensures
                    1 <= k <= max_extent + 1,
                    m_li.fields() == dda_dec_n(f0, k as nat),
                    y == back_pos(lp, k as nat),
                    old_y == y,
                    x == lp.x1 / 256 - k * lp.inc,
                    di == back_di4(lp, di0, k as nat),
                    forall|j: int| 1 <= j < k ==> #[trigger] back_npix4(lp, di0, m, j as nat) != 0 && j <= max_extent,
                    if back_npix4(lp, di0, m, k as nat) == 0 {
                        step == -(k - 1)
                    } else {
                        k > max_extent && step == -k
                    },
                decreases max_extent - k,
            {
                proof {
                    crate::render::lemma_dda_dec_n_bounds(f0, k as nat);
                    lemma_mul_bound(k, iabs(f0.1) + 1, 0x80_0001, 258);
                    lemma_mul_bound(k, iabs(f0.2) + iabs(f0.0), 0x80_0001, 0x600_0003);
                    lemma_back_di4(lp, di0, k as nat);
                    assert((k + 1) * lp.inc == k * lp.inc + lp.inc) by (nonlinear_arith);
                    lemma_mul_bound(k, lp.inc as int, 0x80_0001, 1);
                }
                m_li.dec();
                x -= lp.inc;
                proof {
                    crate::fixed::lemma_shr8((lp.y1 + m_li.y) as i64);
                    reveal(back_pos);
                }
                y = (lp.y1 + m_li.y) >> POLY_SUBPIXEL_SHIFT;
                if lp.inc > 0 {
                    proof { di.lemma_step_fits((y - old_y) as int); }
                    di.dec_x_by(y - old_y);
                } else {
                    proof { di.lemma_step_fits((y - old_y) as int); }
                    di.inc_x_by(y - old_y);
                }
                old_y = y;
                proof {
                    k = k + 1;
                    assert(di == back_di4(lp, di0, k as nat));
                    lemma_back_di4(lp, di0, k as nat);
                }

                let mut dist1_start: i64 = di.dist_start;
                let mut dist2_start: i64 = di.dist_start;
                let ghost ds: int = di.dist_start as int;
                let ghost npix0: int = npix as int;
                let mut dy: usize = 0;
                if dist1_start < 0 {
                    npix += 1;
                }
                loop
                    invariant_except_break
                        dy < 64,
                        forall|t: int| 1 <= t <= dy ==> #[trigger] dist_pos@[t] <= width,
                    invariant
                        0 <= dy <= 64,
                        dist1_start == ds - dy * di.dx_start,
                        dist2_start == ds + dy * di.dx_start,
                        npix == npix0 + (if ds < 0 { 1int } else { 0 }) + count_neg(ds, -di.dx_start, dy as int),
                        iabs(ds) <= 0x1000_0000_0000_0000,
                        iabs(di.dx_start as int) <= 0x4_0000_0000,
                        0 <= npix0 <= 1,
                        li0.fresh(lp, subpixel_width),
                        dist_pos == li0.dist,
                        width == subpixel_width,
                    ensures
                        1 <= dy <= 64,
                        dist_pos@[dy as int] > width,
                        forall|t: int| 1 <= t < dy ==> #[trigger] dist_pos@[t] <= width,
                        npix == npix0 + pixels_before(ds, -di.dx_start, dy as int),
                    decreases 64 - dy,
                {
                    proof {
                        lemma_mul_bound(dy as int + 1, di.dx_start as int, 64, 0x4_0000_0000);
                        lemma_mul_bound(dy as int, di.dx_start as int, 64, 0x4_0000_0000);
                        lemma_count_neg_bound(ds, -di.dx_start, dy as int);
                        assert((dy as int + 1) * di.dx_start == dy as int * di.dx_start + di.dx_start)
                            by (nonlinear_arith);
                        assert((dy as int + 1) * (-di.dx_start) == -((dy as int + 1) * di.dx_start))
                            by (nonlinear_arith);
                    }
                    dist1_start -= di.dx_start;
                    dist2_start += di.dx_start;
                    if dist1_start < 0 {
                        npix += 1;
                    }
                    if dist2_start < 0 {
                        npix += 1;
                    }
                    dy += 1;
                    if dist_pos[dy] > width {
                        break;
                    }
                }
                proof {
                    lemma_first_above(dist_pos@, width as int, 1, dy as int);
                }
                if npix == 0 {
                    break;
                }
                npix = 0;
                step -= 1;
                if step < -max_extent {
                    break;
                }
            }
        }
        proof {
            crate::render::lemma_dda_dec_n_bounds(f0, k as nat);
            lemma_mul_bound(k, iabs(f0.2) + iabs(f0.0), 0x80_0002, 0x600_0003);
        }
        m_li.adjust_forward();
        step -= max_extent;
        let s = LineInterpolatorImage {
            lp, x, y, old_x, old_y, count, width, max_extent, step,
            dist_pos, colors, di, start, li: m_li,
        };
        assert(image_start(lp, di0, subpixel_width, s, k));
        s
    }
}

} // verus!

verus! {

use crate::base::{clip_run, clip_fits};
use crate::render::{LineImagePatternPow2, bilinear};
use crate::{Pixel, Source, span_update, cob};

/// The color of pattern `p` at (`x`, `y`) in subpixels, `x` wrapping around
/// the pattern's width: the bilinear blend of the four pixels around it
pub open spec fn pattern_color(p: LineImagePatternPow2, x: i64, y: i64) -> Rgba8 {
    let px = (x & (p.mask as i64)) + p.base.dilation_hr;
    let py = y + p.base.offset_y_hr;
    let xl = (px / 256) as usize;
    let yl = (py / 256) as usize;
    let fx = (px % 256) as int;
    let fy = (py % 256) as int;
    let p00 = p.base.pix.source_color((xl, yl));
    let p10 = p.base.pix.source_color(((xl + 1) as usize, yl));
    let p01 = p.base.pix.source_color((xl, (yl + 1) as usize));
    let p11 = p.base.pix.source_color(((xl + 1) as usize, (yl + 1) as usize));
    Rgba8 {
        r: bilinear(p00.r as int, p10.r as int, p01.r as int, p11.r as int, fx, fy) as u8,
        g: bilinear(p00.g as int, p10.g as int, p01.g as int, p11.g as int, fx, fy) as u8,
        b: bilinear(p00.b as int, p10.b as int, p01.b as int, p11.b as int, fx, fy) as u8,
        a: bilinear(p00.a as int, p10.a as int, p01.a as int, p11.a as int, fx, fy) as u8,
    }
}

/// Row `y` (in subpixels) of pattern `p` can be read at any position along it
pub open spec fn pattern_row_ok(p: LineImagePatternPow2, y: int) -> bool {
    &&& Pixel::wf(&p.base.pix)
    &&& p.mask <= 0x1_0000_0000
    &&& 0 <= p.base.dilation_hr
    &&& p.mask + p.base.dilation_hr <= i64::MAX
    &&& (p.mask + p.base.dilation_hr) / 256 + 1 < p.base.pix.rbuf.width
    &&& 0 <= y + p.base.offset_y_hr <= i64::MAX
    &&& (y + p.base.offset_y_hr) / 256 + 1 < p.base.pix.rbuf.height
}

/// The image after a span of `colors` is drawn at full cover from (`x`, `y`)
/// along a row, or along a column if `vertical`, clipped to the image
pub open spec fn color_span_done<T: Pixel>(old: &RenderingBase<T>, new: &RenderingBase<T>,
                                           x: int, y: int, len: int, colors: Seq<Rgba8>,
                                           vertical: bool) -> bool {
    let w = old.pixf.width_spec() as int;
    let h = old.pixf.height_spec() as int;
    let (lo, across, run_max, across_max) = if vertical { (y, x, h - 1, w) } else { (x, y, w - 1, h) };
    let (draw, first, n, off) = clip_run(lo, len, run_max);
    &&& new.wf()
    &&& if 0 <= across < across_max && draw {
        span_update(&old.pixf, &new.pixf, if vertical { x } else { first }, if vertical { first } else { y },
            n, vertical, |i: int, px: Seq<u8>| cob::<T, Rgba8>(px, colors[off + i], 255))
    } else {
        new.pixf == old.pixf
    }
}

/// A span of `len` pixels from (`x`, `y`) along a row, or along a column if
/// `vertical`, can be drawn into `ren` from `ncolors` colors
pub open spec fn color_span_ok<T: Pixel>(ren: &RenderingBase<T>, x: int, y: int, len: int,
                                         ncolors: int, vertical: bool) -> bool {
    let w = ren.pixf.width_spec() as int;
    let h = ren.pixf.height_spec() as int;
    let (lo, across, run_max, across_max) = if vertical { (y, x, h - 1, w) } else { (x, y, w - 1, h) };
    let (draw, first, n, off) = clip_run(lo, len, run_max);
    &&& ren.wf()
    &&& clip_fits(lo, len)
    &&& (0 <= across < across_max && draw ==> 0 <= n && off + n <= ncolors)
}

/// Outline Renderer that draws lines with an image pattern
#[derive(Debug)]
pub struct RendererOutlineImg<'a, T> {
    pub ren: &'a mut RenderingBase<T>,
    pub pattern: LineImagePatternPow2,
    /// Position along the pattern where the next line starts
    pub start: i64,
}

impl<'a, T: Pixel> RendererOutlineImg<'a, T> {
    /// Create a renderer drawing into `ren` with `pattern`, from the
    /// pattern's start
    pub fn with_base_and_pattern(ren: &'a mut RenderingBase<T>, pattern: LineImagePatternPow2) -> (s: Self)
        ensures
            *s.ren == *old(ren),
            *final(s.ren) == *final(ren),
            s.pattern == pattern,
            s.start == 0,
    {
        Self { ren, pattern, start: 0 }
    }

    /// Half the width of the line, in subpixels
    pub fn subpixel_width(&self) -> (r: i64)
        ensures
            r == self.pattern.base.half_height_hr,
    {
        self.pattern.line_width()
    }

    /// Width of the pattern, in subpixels
    pub fn pattern_width(&self) -> (r: i64)
        ensures
            r == self.pattern.base.width_hr,
    {
        self.pattern.pattern_width()
    }

    /// The pattern's color at (`x`, `y`) in subpixels
    pub fn pixel(&self, x: i64, y: i64) -> (c: Rgba8)
        requires
            pattern_row_ok(self.pattern, y as int),
        ensures
            c == pattern_color(self.pattern, x, y),
    {
        let m: i64 = self.pattern.mask as i64;
        assert(0 <= (x & m) <= m) by (bit_vector)
            requires 0 <= m;
        self.pattern.pixel(x, y)
    }

    /// Draw `colors` at full cover along row `y` from `x`
    pub fn blend_color_hspan(&mut self, x: i64, y: i64, len: i64, colors: &[Rgba8])
        requires
            color_span_ok(&*old(self).ren, x as int, y as int, len as int, colors@.len() as int, false),
        ensures
            color_span_done(&*old(self).ren, &*final(self).ren, x as int, y as int, len as int, colors@, false),
            final(self).pattern == old(self).pattern,
            final(self).start == old(self).start,
    {
        self.ren.blend_color_hspan(x, y, len, colors, &[], 255);
    }

    /// Draw `colors` at full cover along column `x` from `y`
    pub fn blend_color_vspan(&mut self, x: i64, y: i64, len: i64, colors: &[Rgba8])
        requires
            color_span_ok(&*old(self).ren, x as int, y as int, len as int, colors@.len() as int, true),
        ensures
            color_span_done(&*old(self).ren, &*final(self).ren, x as int, y as int, len as int, colors@, true),
            final(self).pattern == old(self).pattern,
            final(self).start == old(self).start,
    {
        self.ren.blend_color_vspan(x, y, len, colors, &[], 255);
    }
}

} // verus!

verus! {

use crate::render::{dda_inc, DDA_LIMIT};
use crate::line_interp::{spread_fits, count_inside, lemma_count_inside_bound};
use crate::MAX_HALF_WIDTH;

/// The row of the pattern that the pixel `t` places from the center of a
/// spread reads, the center reading row `s2` and the rows growing with the
/// table distances on the side of positive `t` if `up`
pub open spec fn img_row(s2: int, up: bool, dist_pos: Seq<i64>, t: int) -> int {
    if t == 0 {
        s2
    } else if (t > 0) == up {
        s2 + dist_pos[if t > 0 { t } else { -t }]
    } else {
        s2 - dist_pos[if t > 0 { t } else { -t }]
    }
}

/// Every row of the pattern that a spread around a center at distance `s1`
/// may read can be read
pub open spec fn img_rows_ok(p: LineImagePatternPow2, dist_pos: Seq<i64>, width: int, s1: int, s2: int,
                             up: bool) -> bool {
    &&& pattern_row_ok(p, s2)
    &&& forall|k: int| 1 <= k <= 64 && dist_pos[k] - s1 <= width ==>
            pattern_row_ok(p, #[trigger] img_row(s2, up, dist_pos, k))
    &&& forall|k: int| 1 <= k <= 64 && dist_pos[k] + s1 <= width ==>
            pattern_row_ok(p, #[trigger] img_row(s2, up, dist_pos, -k))
}

impl LineInterpolatorImage {
    /// No single step leaves the 64-bit range, and the tables are well formed
    pub open spec fn steppable(&self) -> bool {
        &&& self.li.in_range()
        &&& -DDA_LIMIT <= self.li.y + self.li.left + 1 <= DDA_LIMIT
        &&& -DDA_LIMIT <= self.li.y - self.li.left - 1 <= DDA_LIMIT
        &&& self.lp.in_range()
        &&& -DDA_LIMIT <= self.x <= DDA_LIMIT
        &&& -DDA_LIMIT <= self.y <= DDA_LIMIT
        &&& -DDA_LIMIT <= self.old_x <= DDA_LIMIT
        &&& -DDA_LIMIT <= self.old_y <= DDA_LIMIT
        &&& -1 <= self.lp.inc <= 1
        &&& self.lp.len != 0
        &&& iabs(self.lp.len as int) <= crate::line_interp::LEN_LIMIT
        &&& self.step + 1 <= i64::MAX
        &&& self.dist_pos@.len() == 65
        &&& self.dist_pos@[64] == DIST_SENTINEL
        &&& forall|j: int| 0 <= j < 65 ==> iabs(#[trigger] self.dist_pos@[j] as int) <= DIST_LIMIT
        &&& self.colors@.len() == 132
        &&& 0 <= self.width < WIDTH_LIMIT
        &&& self.di.step_ok()
    }

    /// The pixel row after a horizontal step
    pub open spec fn y_after_hor(&self) -> int {
        (self.lp.y1 + dda_inc(self.li.fields()).4) / 256
    }

    /// The pixel column after a vertical step
    pub open spec fn x_after_ver(&self) -> int {
        (self.lp.x1 + dda_inc(self.li.fields()).4) / 256
    }

    /// The distances after a horizontal step
    pub open spec fn di_after_hor(&self) -> DistanceInterpolator4 {
        let v = (self.y_after_hor() - self.old_y) as i64;
        if self.lp.inc > 0 { di4_inc_x(self.di, v) } else { di4_dec_x(self.di, v) }
    }

    /// The distances after a vertical step
    pub open spec fn di_after_ver(&self) -> DistanceInterpolator4 {
        let v = (self.x_after_ver() - self.old_x) as i64;
        if self.lp.inc > 0 { di4_inc_y(self.di, v) } else { di4_dec_y(self.di, v) }
    }

    /// The distance of the pixel after a step, scaled by the line length
    pub open spec fn scaled(&self, d: DistanceInterpolator4) -> int {
        crate::fixed::tquot(d.dist as int, self.lp.len as int)
    }

    /// A step leaves the pixel position well inside the 64-bit range
    pub proof fn lemma_step_position(&self)
        requires
            self.steppable(),
        ensures
            iabs(self.y_after_hor()) <= 0x1_0000_0000_0000,
            iabs(self.x_after_ver()) <= 0x1_0000_0000_0000,
    {
        let ny = dda_inc(self.li.fields()).4;
        assert(-DDA_LIMIT - 1 <= ny <= DDA_LIMIT);
    }

    /// The spread after a step fits: its distances stay in range over the
    /// whole spread, both ends of the spread are found before the table
    /// ends, and every pattern row it reads can be read
    pub open spec fn spread_ok<T>(&self, d: DistanceInterpolator4, s1: int, s2: int, up: bool,
                                  ren: &RendererOutlineImg<T>) -> bool {
        let w = self.width as int;
        &&& spread_fits(d.dist_start as int, d.dx_start as int, d.dy_start as int)
        &&& spread_fits(d.dist_end as int, d.dx_end as int, d.dy_end as int)
        &&& spread_fits(d.dist_pict + self.start, d.dx_pict as int, d.dy_pict as int)
        &&& exists|k: int| 1 <= k <= 64 && #[trigger] self.dist_pos@[k] - s1 > w
        &&& exists|k: int| 1 <= k <= 64 && #[trigger] self.dist_pos@[k] + s1 > w
        &&& iabs(s1) <= i64::MAX - DIST_LIMIT
        &&& img_rows_ok(ren.pattern, self.dist_pos@, w, s1, s2, up)
    }

    /// Conduct a horizontal step
    ///
    /// Draws the column of pattern colors around the next pixel; pixels
    /// before the start line or past the end line are left transparent.
    /// Returns whether any pixel was inside and steps remain.
    #[verifier::rlimit(60)]
    #[verifier::spinoff_prover]
    pub fn step_hor<T: Pixel>(&mut self, ren: &mut RendererOutlineImg<T>) -> (r: bool)
        requires
            old(self).steppable(),
            old(ren).ren.wf(),
            ({
                let d = old(self).di_after_hor();
                let s = old(self).scaled(d);
                old(self).spread_ok(d, if old(self).lp.inc < 0 { -s } else { s }, -s,
                    old(self).lp.inc > 0, &*old(ren))
            }),
        ensures
            final(self).li.fields() == old(self).li.inc_spec(),
            final(self).x == old(self).x + old(self).lp.inc,
            final(self).y == old(self).y_after_hor(),
            final(self).old_y == final(self).y,
            final(self).old_x == old(self).old_x,
            final(self).di == old(self).di_after_hor(),
            final(self).step == old(self).step + 1,
            final(self).lp == old(self).lp,
            final(self).count == old(self).count,
            final(self).width == old(self).width,
            final(self).max_extent == old(self).max_extent,
            final(self).start == old(self).start,
            final(self).dist_pos == old(self).dist_pos,
            final(self).colors@.len() == 132,
            final(ren).pattern == old(ren).pattern,
            final(ren).start == old(ren).start,
            ({
                let d = final(self).di;
                let s = old(self).scaled(d);
                let s1 = if old(self).lp.inc < 0 { -s } else { s };
                let w = old(self).width as int;
                let ds = d.dist_start as int;
                let de = d.dist_end as int;
                let dp = d.dist_pict + old(self).start;
                let k1 = first_above(old(self).dist_pos@, w + s1, 1);
                let k2 = first_above(old(self).dist_pos@, w - s1, 1);
                let npix = (if de > 0 { 1int } else { 0 })
                    + count_inside(ds, -d.dx_start, de, -d.dx_end, k1 - 1)
                    + count_inside(ds, d.dx_start as int, de, d.dx_end as int, k2 - 1);
                &&& forall|t: int| -k2 < t < k1 ==> #[trigger] final(self).colors@[66 + t]
                        == (if de - t * d.dx_end > 0 && ds - t * d.dx_start <= 0 {
                            pattern_color(old(ren).pattern, (dp - t * d.dx_pict) as i64,
                                img_row(-s, old(self).lp.inc > 0, old(self).dist_pos@, t) as i64)
                        } else {
                            Rgba8 { r: 0, g: 0, b: 0, a: 0 }
                        })
                &&& color_span_done(&*old(ren).ren, &*final(ren).ren, final(self).x as int,
                        final(self).y - k2 + 1, k1 + k2 - 1,
                        final(self).colors@.subrange(67 - k2, 66 + k1), true)
                &&& r == (npix != 0 && final(self).step < final(self).count)
            }),
    {
        let ghost s0 = *self;
        self.li.inc();
        self.x += self.lp.inc;
        proof { crate::fixed::lemma_shr8((self.lp.y1 + self.li.y) as i64); }
        self.y = (self.lp.y1 + self.li.y) >> POLY_SUBPIXEL_SHIFT;
        if self.lp.inc > 0 {
            proof { self.di.lemma_step_fits((self.y - self.old_y) as int); }
            self.di.inc_x_by(self.y - self.old_y);
        } else {
            proof { self.di.lemma_step_fits((self.y - self.old_y) as int); }
            self.di.dec_x_by(self.y - self.old_y);
        }
        self.old_y = self.y;
        assert(self.di == s0.di_after_hor());

        let d: i64 = self.di.dist;
        proof { crate::fixed::lemma_tdiv_bounds(d as int, iabs(self.lp.len as int)); }
        let mut s1: i64 = if self.lp.len > 0 { d / self.lp.len } else { -(d / -self.lp.len) };
        let s2: i64 = -s1;
        if self.lp.inc < 0 {
            s1 = -s1;
        }
        let ghost up: bool = self.lp.inc > 0;
        let ghost inc: int = self.lp.inc as int;
        let ghost w: int = self.width as int;
        let ghost di0 = self.di;
        let ghost ds: int = di0.dist_start as int;
        let ghost de: int = di0.dist_end as int;
        let ghost a: int = di0.dx_start as int;
        let ghost b: int = di0.dx_end as int;
        let ghost c: int = di0.dx_pict as int;
        let ghost dp0: int = di0.dist_pict + self.start;
        let ghost dist_pos = self.dist_pos@;

        let mut dist_start: i64 = self.di.dist_start;
        let mut dist_pict: i64 = self.di.dist_pict + self.start;
        let mut dist_end: i64 = self.di.dist_end;
        let mut p0: usize = MAX_HALF_WIDTH + 2;
        let mut p1: usize = p0;

        let mut npix: i64 = 0;
        let mut clear = self.colors[p1];
        clear.clear();
        self.colors.set(p1, clear);
        if dist_end > 0 {
            if dist_start <= 0 {
                let c0 = ren.pixel(dist_pict, s2);
                self.colors.set(p1, c0);
            }
            npix += 1;
        }
        p1 += 1;

        let mut dy: usize = 1;
        let mut dist: i64 = self.dist_pos[dy];
        assert(0 * a == 0 && 0 * b == 0 && 0 * c == 0);
        while dist - s1 <= self.width
            invariant
                1 <= dy <= 64,
                p1 == 66 + dy,
                p0 == 66,
                self.after_hor_of(&s0),
                self.di == di0,
                self.dist_pos@ == dist_pos,
                self.width == w,
                dist_pos.len() == 65,
                dist_pos[64] == DIST_SENTINEL,
                forall|j: int| 0 <= j < 65 ==> iabs(#[trigger] dist_pos[j] as int) <= DIST_LIMIT,
                self.colors@.len() == 132,
                spread_fits(ds, a, di0.dy_start as int),
                spread_fits(de, b, di0.dy_end as int),
                spread_fits(dp0, c, di0.dy_pict as int),
                ds == di0.dist_start, de == di0.dist_end,
                a == di0.dx_start, b == di0.dx_end, c == di0.dx_pict,
                dp0 == di0.dist_pict + self.start,
                inc == self.lp.inc,
                up == (inc > 0),
                s2 == (if inc < 0 { s1 as int } else { -s1 }),
                iabs(s1 as int) <= i64::MAX - DIST_LIMIT,
                exists|k: int| 1 <= k <= 64 && #[trigger] dist_pos[k] - s1 > w,
                img_rows_ok(ren.pattern, dist_pos, w, s1 as int, s2 as int, up),
                dist == dist_pos[dy as int],
                dist_start == ds - (dy - 1) * a,
                dist_end == de - (dy - 1) * b,
                dist_pict == dp0 - (dy - 1) * c,
                npix == (if de > 0 { 1int } else { 0 }) + count_inside(ds, -a, de, -b, dy - 1),
                forall|k: int| 1 <= k < dy ==> #[trigger] dist_pos[k] - s1 <= w,
                forall|t: int| 0 <= t < dy ==> #[trigger] self.colors@[66 + t]
                    == (if de - t * b > 0 && ds - t * a <= 0 {
                        pattern_color(ren.pattern, (dp0 - t * c) as i64, img_row(s2 as int, up, dist_pos, t) as i64)
                    } else {
                        Rgba8 { r: 0, g: 0, b: 0, a: 0 }
                    }),
            decreases 64 - dy,
        {
            proof {
                lemma_mul_bound(dy as int, a, 64, iabs(a));
                lemma_mul_bound(dy as int, b, 64, iabs(b));
                lemma_mul_bound(dy as int, c, 64, iabs(c));
                assert(ds - dy * a == ds - (dy - 1) * a - a) by (nonlinear_arith);
                assert(de - dy * b == de - (dy - 1) * b - b) by (nonlinear_arith);
                assert(dp0 - dy * c == dp0 - (dy - 1) * c - c) by (nonlinear_arith);
                assert(dy * (-a) == -(dy * a)) by (nonlinear_arith);
                assert(dy * (-b) == -(dy * b)) by (nonlinear_arith);
                lemma_count_inside_bound(ds, -a, de, -b, dy - 1);
            }
            dist_start -= self.di.dx_start;
            dist_pict -= self.di.dx_pict;
            dist_end -= self.di.dx_end;
            let mut clear = self.colors[p1];
            clear.clear();
            self.colors.set(p1, clear);
            if dist_end > 0 && dist_start <= 0 {
                if self.lp.inc > 0 {
                    dist = -dist;
                }
                assert(s2 - dist == img_row(s2 as int, up, dist_pos, dy as int));
                assert(pattern_row_ok(ren.pattern, img_row(s2 as int, up, dist_pos, dy as int)));
                let cp = ren.pixel(dist_pict, s2 - dist);
                self.colors.set(p1, cp);
                npix += 1;
            }
            p1 += 1;
            dy += 1;
            dist = self.dist_pos[dy];
        }
        proof {
            lemma_first_above(dist_pos, w + s1, 1, dy as int);
            lemma_count_inside_bound(ds, -a, de, -b, dy - 1);
        }
        let ghost k1: int = dy as int;
        let ghost npix1: int = npix as int;

        dy = 1;
        dist_start = self.di.dist_start;
        dist_pict = self.di.dist_pict + self.start;
        dist_end = self.di.dist_end;
        dist = self.dist_pos[dy];
        while dist + s1 <= self.width
            invariant
                1 <= dy <= 64,
                p0 == 67 - dy,
                p1 == 66 + k1,
                1 <= k1 <= 64,
                self.after_hor_of(&s0),
                self.di == di0,
                self.dist_pos@ == dist_pos,
                self.width == w,
                dist_pos.len() == 65,
                dist_pos[64] == DIST_SENTINEL,
                forall|j: int| 0 <= j < 65 ==> iabs(#[trigger] dist_pos[j] as int) <= DIST_LIMIT,
                self.colors@.len() == 132,
                spread_fits(ds, a, di0.dy_start as int),
                spread_fits(de, b, di0.dy_end as int),
                spread_fits(dp0, c, di0.dy_pict as int),
                ds == di0.dist_start, de == di0.dist_end,
                a == di0.dx_start, b == di0.dx_end, c == di0.dx_pict,
                dp0 == di0.dist_pict + self.start,
                inc == self.lp.inc,
                up == (inc > 0),
                s2 == (if inc < 0 { s1 as int } else { -s1 }),
                iabs(s1 as int) <= i64::MAX - DIST_LIMIT,
                exists|k: int| 1 <= k <= 64 && #[trigger] dist_pos[k] + s1 > w,
                img_rows_ok(ren.pattern, dist_pos, w, s1 as int, s2 as int, up),
                dist == dist_pos[dy as int],
                dist_start == ds + (dy - 1) * a,
                dist_end == de + (dy - 1) * b,
                dist_pict == dp0 + (dy - 1) * c,
                0 <= npix1 <= 64,
                npix == npix1 + count_inside(ds, a, de, b, dy - 1),
                forall|k: int| 1 <= k < dy ==> #[trigger] dist_pos[k] + s1 <= w,
                forall|t: int| -dy < t < k1 ==> #[trigger] self.colors@[66 + t]
                    == (if de - t * b > 0 && ds - t * a <= 0 {
                        pattern_color(ren.pattern, (dp0 - t * c) as i64, img_row(s2 as int, up, dist_pos, t) as i64)
                    } else {
                        Rgba8 { r: 0, g: 0, b: 0, a: 0 }
                    }),
            decreases 64 - dy,
        {
            proof {
                lemma_mul_bound(dy as int, a, 64, iabs(a));
                lemma_mul_bound(dy as int, b, 64, iabs(b));
                lemma_mul_bound(dy as int, c, 64, iabs(c));
                assert(ds + dy * a == ds + (dy - 1) * a + a) by (nonlinear_arith);
                assert(de + dy * b == de + (dy - 1) * b + b) by (nonlinear_arith);
                assert(dp0 + dy * c == dp0 + (dy - 1) * c + c) by (nonlinear_arith);
                assert(ds - (-(dy as int)) * a == ds + dy * a) by (nonlinear_arith);
                assert(de - (-(dy as int)) * b == de + dy * b) by (nonlinear_arith);
                assert(dp0 - (-(dy as int)) * c == dp0 + dy * c) by (nonlinear_arith);
                lemma_count_inside_bound(ds, a, de, b, dy - 1);
            }
            dist_start += self.di.dx_start;
            dist_pict += self.di.dx_pict;
            dist_end += self.di.dx_end;
            p0 -= 1;
            let mut clear = self.colors[p0];
            clear.clear();
            self.colors.set(p0, clear);
            if dist_end > 0 && dist_start <= 0 {
                if self.lp.inc > 0 {
                    dist = -dist;
                }
                assert(s2 + dist == img_row(s2 as int, up, dist_pos, -(dy as int)));
                assert(pattern_row_ok(ren.pattern, img_row(s2 as int, up, dist_pos, -(dy as int))));
                let cp = ren.pixel(dist_pict, s2 + dist);
                self.colors.set(p0, cp);
                npix += 1;
            }
            dy += 1;
            dist = self.dist_pos[dy];
        }
        proof {
            lemma_first_above(dist_pos, w - s1, 1, dy as int);
            s0.lemma_step_position();
        }
        let colors = vstd::slice::slice_subrange(self.colors.as_slice(), p0, p1);
        ren.blend_color_vspan(self.x,
                              self.y - dy as i64 + 1,
                              (p1 - p0) as i64,
                              colors);
        self.step += 1;
        npix != 0 && self.step < self.count
    }

    /// Conduct a vertical step
    ///
    /// Draws the row of pattern colors around the next pixel; pixels
    /// before the start line or past the end line are left transparent.
    /// Returns whether any pixel was inside and steps remain.
    #[verifier::rlimit(60)]
    #[verifier::spinoff_prover]
    pub fn step_ver<T: Pixel>(&mut self, ren: &mut RendererOutlineImg<T>) -> (r: bool)
        requires
            old(self).steppable(),
            old(ren).ren.wf(),
            ({
                let d = old(self).di_after_ver();
                let s = old(self).scaled(d);
                old(self).spread_ok(d, if old(self).lp.inc > 0 { -s } else { s }, -s,
                    old(self).lp.inc <= 0, &*old(ren))
            }),
        ensures
            final(self).li.fields() == old(self).li.inc_spec(),
            final(self).y == old(self).y + old(self).lp.inc,
            final(self).x == old(self).x_after_ver(),
            final(self).old_x == final(self).x,
            final(self).old_y == old(self).old_y,
            final(self).di == old(self).di_after_ver(),
            final(self).step == old(self).step + 1,
            final(self).lp == old(self).lp,
            final(self).count == old(self).count,
            final(self).width == old(self).width,
            final(self).max_extent == old(self).max_extent,
            final(self).start == old(self).start,
            final(self).dist_pos == old(self).dist_pos,
            final(self).colors@.len() == 132,
            final(ren).pattern == old(ren).pattern,
            final(ren).start == old(ren).start,
            ({
                let d = final(self).di;
                let s = old(self).scaled(d);
                let s1 = if old(self).lp.inc > 0 { -s } else { s };
                let w = old(self).width as int;
                let ds = d.dist_start as int;
                let de = d.dist_end as int;
                let dp = d.dist_pict + old(self).start;
                let k1 = first_above(old(self).dist_pos@, w + s1, 1);
                let k2 = first_above(old(self).dist_pos@, w - s1, 1);
                let npix = (if de > 0 { 1int } else { 0 })
                    + count_inside(ds, d.dy_start as int, de, d.dy_end as int, k1 - 1)
                    + count_inside(ds, -d.dy_start, de, -d.dy_end, k2 - 1);
                &&& forall|t: int| -k2 < t < k1 ==> #[trigger] final(self).colors@[66 + t]
                        == (if de + t * d.dy_end > 0 && ds + t * d.dy_start <= 0 {
                            pattern_color(old(ren).pattern, (dp + t * d.dy_pict) as i64,
                                img_row(-s, old(self).lp.inc <= 0, old(self).dist_pos@, t) as i64)
                        } else {
                            Rgba8 { r: 0, g: 0, b: 0, a: 0 }
                        })
                &&& color_span_done(&*old(ren).ren, &*final(ren).ren, final(self).x - k2 + 1,
                        final(self).y as int, k1 + k2 - 1,
                        final(self).colors@.subrange(67 - k2, 66 + k1), false)
                &&& r == (npix != 0 && final(self).step < final(self).count)
            }),
    {
        let ghost s0 = *self;
        self.li.inc();
        self.y += self.lp.inc;
        proof { crate::fixed::lemma_shr8((self.lp.x1 + self.li.y) as i64); }
        self.x = (self.lp.x1 + self.li.y) >> POLY_SUBPIXEL_SHIFT;
        if self.lp.inc > 0 {
            proof { self.di.lemma_step_fits((self.x - self.old_x) as int); }
            self.di.inc_y_by(self.x - self.old_x);
        } else {
            proof { self.di.lemma_step_fits((self.x - self.old_x) as int); }
            self.di.dec_y_by(self.x - self.old_x);
        }
        self.old_x = self.x;
        assert(self.di == s0.di_after_ver());

        let d: i64 = self.di.dist;
        proof { crate::fixed::lemma_tdiv_bounds(d as int, iabs(self.lp.len as int)); }
        let mut s1: i64 = if self.lp.len > 0 { d / self.lp.len } else { -(d / -self.lp.len) };
        let s2: i64 = -s1;
        if self.lp.inc > 0 {
            s1 = -s1;
        }
        let ghost up: bool = self.lp.inc <= 0;
        let ghost inc: int = self.lp.inc as int;
        let ghost w: int = self.width as int;
        let ghost di0 = self.di;
        let ghost ds: int = di0.dist_start as int;
        let ghost de: int = di0.dist_end as int;
        let ghost a: int = di0.dy_start as int;
        let ghost b: int = di0.dy_end as int;
        let ghost c: int = di0.dy_pict as int;
        let ghost dp0: int = di0.dist_pict + self.start;
        let ghost dist_pos = self.dist_pos@;

        let mut dist_start: i64 = self.di.dist_start;
        let mut dist_pict: i64 = self.di.dist_pict + self.start;
        let mut dist_end: i64 = self.di.dist_end;
        let mut p0: usize = MAX_HALF_WIDTH + 2;
        let mut p1: usize = p0;

        let mut npix: i64 = 0;
        let mut clear = self.colors[p1];
        clear.clear();
        self.colors.set(p1, clear);
        if dist_end > 0 {
            if dist_start <= 0 {
                let c0 = ren.pixel(dist_pict, s2);
                self.colors.set(p1, c0);
            }
            npix += 1;
        }
        p1 += 1;

        let mut dy: usize = 1;
        let mut dist: i64 = self.dist_pos[dy];
        assert(0 * a == 0 && 0 * b == 0 && 0 * c == 0);
        while dist - s1 <= self.width
            invariant
                1 <= dy <= 64,
                p1 == 66 + dy,
                p0 == 66,
                self.after_ver_of(&s0),
                self.di == di0,
                self.dist_pos@ == dist_pos,
                self.width == w,
                dist_pos.len() == 65,
                dist_pos[64] == DIST_SENTINEL,
                forall|j: int| 0 <= j < 65 ==> iabs(#[trigger] dist_pos[j] as int) <= DIST_LIMIT,
                self.colors@.len() == 132,
                spread_fits(ds, di0.dx_start as int, a),
                spread_fits(de, di0.dx_end as int, b),
                spread_fits(dp0, di0.dx_pict as int, c),
                ds == di0.dist_start, de == di0.dist_end,
                a == di0.dy_start, b == di0.dy_end, c == di0.dy_pict,
                dp0 == di0.dist_pict + self.start,
                inc == self.lp.inc,
                up == (inc <= 0),
                s2 == (if inc > 0 { s1 as int } else { -s1 }),
                iabs(s1 as int) <= i64::MAX - DIST_LIMIT,
                exists|k: int| 1 <= k <= 64 && #[trigger] dist_pos[k] - s1 > w,
                img_rows_ok(ren.pattern, dist_pos, w, s1 as int, s2 as int, up),
                dist == dist_pos[dy as int],
                dist_start == ds + (dy - 1) * a,
                dist_end == de + (dy - 1) * b,
                dist_pict == dp0 + (dy - 1) * c,
                npix == (if de > 0 { 1int } else { 0 }) + count_inside(ds, a, de, b, dy - 1),
                forall|k: int| 1 <= k < dy ==> #[trigger] dist_pos[k] - s1 <= w,
                forall|t: int| 0 <= t < dy ==> #[trigger] self.colors@[66 + t]
                    == (if de + t * b > 0 && ds + t * a <= 0 {
                        pattern_color(ren.pattern, (dp0 + t * c) as i64, img_row(s2 as int, up, dist_pos, t) as i64)
                    } else {
                        Rgba8 { r: 0, g: 0, b: 0, a: 0 }
                    }),
            decreases 64 - dy,
        {
            proof {
                lemma_mul_bound(dy as int, a, 64, iabs(a));
                lemma_mul_bound(dy as int, b, 64, iabs(b));
                lemma_mul_bound(dy as int, c, 64, iabs(c));
                assert(ds + dy * a == ds + (dy - 1) * a + a) by (nonlinear_arith);
                assert(de + dy * b == de + (dy - 1) * b + b) by (nonlinear_arith);
                assert(dp0 + dy * c == dp0 + (dy - 1) * c + c) by (nonlinear_arith);
                lemma_count_inside_bound(ds, a, de, b, dy - 1);
            }
            dist_start += self.di.dy_start;
            dist_pict += self.di.dy_pict;
            dist_end += self.di.dy_end;
            let mut clear = self.colors[p1];
            clear.clear();
            self.colors.set(p1, clear);
            if dist_end > 0 && dist_start <= 0 {
                if self.lp.inc > 0 {
                    dist = -dist;
                }
                assert(s2 + dist == img_row(s2 as int, up, dist_pos, dy as int));
                assert(pattern_row_ok(ren.pattern, img_row(s2 as int, up, dist_pos, dy as int)));
                let cp = ren.pixel(dist_pict, s2 + dist);
                self.colors.set(p1, cp);
                npix += 1;
            }
            p1 += 1;
            dy += 1;
            dist = self.dist_pos[dy];
        }
        proof {
            lemma_first_above(dist_pos, w + s1, 1, dy as int);
            lemma_count_inside_bound(ds, a, de, b, dy - 1);
        }
        let ghost k1: int = dy as int;
        let ghost npix1: int = npix as int;

        dy = 1;
        dist_start = self.di.dist_start;
        dist_pict = self.di.dist_pict + self.start;
        dist_end = self.di.dist_end;
        dist = self.dist_pos[dy];
        while dist + s1 <= self.width
            invariant
                1 <= dy <= 64,
                p0 == 67 - dy,
                p1 == 66 + k1,
                1 <= k1 <= 64,
                self.after_ver_of(&s0),
                self.di == di0,
                self.dist_pos@ == dist_pos,
                self.width == w,
                dist_pos.len() == 65,
                dist_pos[64] == DIST_SENTINEL,
                forall|j: int| 0 <= j < 65 ==> iabs(#[trigger] dist_pos[j] as int) <= DIST_LIMIT,
                self.colors@.len() == 132,
                spread_fits(ds, di0.dx_start as int, a),
                spread_fits(de, di0.dx_end as int, b),
                spread_fits(dp0, di0.dx_pict as int, c),
                ds == di0.dist_start, de == di0.dist_end,
                a == di0.dy_start, b == di0.dy_end, c == di0.dy_pict,
                dp0 == di0.dist_pict + self.start,
                inc == self.lp.inc,
                up == (inc <= 0),
                s2 == (if inc > 0 { s1 as int } else { -s1 }),
                iabs(s1 as int) <= i64::MAX - DIST_LIMIT,
                exists|k: int| 1 <= k <= 64 && #[trigger] dist_pos[k] + s1 > w,
                img_rows_ok(ren.pattern, dist_pos, w, s1 as int, s2 as int, up),
                dist == dist_pos[dy as int],
                dist_start == ds - (dy - 1) * a,
                dist_end == de - (dy - 1) * b,
                dist_pict == dp0 - (dy - 1) * c,
                0 <= npix1 <= 64,
                npix == npix1 + count_inside(ds, -a, de, -b, dy - 1),
                forall|k: int| 1 <= k < dy ==> #[trigger] dist_pos[k] + s1 <= w,
                forall|t: int| -dy < t < k1 ==> #[trigger] self.colors@[66 + t]
                    == (if de + t * b > 0 && ds + t * a <= 0 {
                        pattern_color(ren.pattern, (dp0 + t * c) as i64, img_row(s2 as int, up, dist_pos, t) as i64)
                    } else {
                        Rgba8 { r: 0, g: 0, b: 0, a: 0 }
                    }),
            decreases 64 - dy,
        {
            proof {
                lemma_mul_bound(dy as int, a, 64, iabs(a));
                lemma_mul_bound(dy as int, b, 64, iabs(b));
                lemma_mul_bound(dy as int, c, 64, iabs(c));
                assert(ds - dy * a == ds - (dy - 1) * a - a) by (nonlinear_arith);
                assert(de - dy * b == de - (dy - 1) * b - b) by (nonlinear_arith);
                assert(dp0 - dy * c == dp0 - (dy - 1) * c - c) by (nonlinear_arith);
                assert(ds + (-(dy as int)) * a == ds - dy * a) by (nonlinear_arith);
                assert(de + (-(dy as int)) * b == de - dy * b) by (nonlinear_arith);
                assert(dp0 + (-(dy as int)) * c == dp0 - dy * c) by (nonlinear_arith);
                assert(dy * (-a) == -(dy * a)) by (nonlinear_arith);
                assert(dy * (-b) == -(dy * b)) by (nonlinear_arith);
                lemma_count_inside_bound(ds, -a, de, -b, dy - 1);
            }
            dist_start -= self.di.dy_start;
            dist_pict -= self.di.dy_pict;
            dist_end -= self.di.dy_end;
            p0 -= 1;
            let mut clear = self.colors[p0];
            clear.clear();
            self.colors.set(p0, clear);
            if dist_end > 0 && dist_start <= 0 {
                if self.lp.inc > 0 {
                    dist = -dist;
                }
                assert(s2 - dist == img_row(s2 as int, up, dist_pos, -(dy as int)));
                assert(pattern_row_ok(ren.pattern, img_row(s2 as int, up, dist_pos, -(dy as int))));
                let cp = ren.pixel(dist_pict, s2 - dist);
                self.colors.set(p0, cp);
                npix += 1;
            }
            dy += 1;
            dist = self.dist_pos[dy];
        }
        proof {
            lemma_first_above(dist_pos, w - s1, 1, dy as int);
            s0.lemma_step_position();
        }
        let colors = vstd::slice::slice_subrange(self.colors.as_slice(), p0, p1);
        ren.blend_color_hspan(self.x - dy as i64 + 1,
                              self.y,
                              (p1 - p0) as i64,
                              colors);
        self.step += 1;
        npix != 0 && self.step < self.count
    }

    /// Everything but the position, the distances and the colors is as in
    /// `s0` after a vertical step
    pub open spec fn after_ver_of(&self, s0: &Self) -> bool {
        &&& self.lp == s0.lp
        &&& self.count == s0.count
        &&& self.width == s0.width
        &&& self.max_extent == s0.max_extent
        &&& self.start == s0.start
        &&& self.step == s0.step
        &&& self.dist_pos == s0.dist_pos
        &&& self.li.fields() == s0.li.inc_spec()
        &&& self.y == s0.y + s0.lp.inc
        &&& self.x == s0.x_after_ver()
        &&& self.old_x == self.x
        &&& self.old_y == s0.old_y
        &&& self.lp.inc == s0.lp.inc
        &&& -1 <= s0.lp.inc <= 1
    }

    /// Everything but the position, the distances and the colors is as in
    /// `s0` after a horizontal step
    pub open spec fn after_hor_of(&self, s0: &Self) -> bool {
        &&& self.lp == s0.lp
        &&& self.count == s0.count
        &&& self.width == s0.width
        &&& self.max_extent == s0.max_extent
        &&& self.start == s0.start
        &&& self.step == s0.step
        &&& self.dist_pos == s0.dist_pos
        &&& self.li.fields() == s0.li.inc_spec()
        &&& self.x == s0.x + s0.lp.inc
        &&& self.y == s0.y_after_hor()
        &&& self.old_y == self.y
        &&& self.old_x == s0.old_x
        &&& self.lp.inc == s0.lp.inc
        &&& -1 <= s0.lp.inc <= 1
    }
}

} // verus!

verus! {

use crate::render::LINE_MAX_LENGTH;
use crate::outline_aa::halves;
use crate::outline_cut::{cut_point, mid_cut};
use crate::in_aux;

/// `b` is `a` after one step along rows if `vertical`, else along columns,
/// its colors those of pattern `pat` around the new pixel, transparent
/// outside the cuts
pub open spec fn img_next(a: LineInterpolatorImage, b: LineInterpolatorImage, pat: LineImagePatternPow2,
                          vertical: bool) -> bool {
    let d = b.di;
    let ds = d.dist_start as int;
    let de = d.dist_end as int;
    let dp = d.dist_pict + a.start;
    let s = a.scaled(d);
    let w = a.width as int;
    &&& b.li.fields() == a.li.inc_spec()
    &&& b.step == a.step + 1
    &&& b.lp == a.lp
    &&& b.count == a.count
    &&& b.width == a.width
    &&& b.max_extent == a.max_extent
    &&& b.start == a.start
    &&& b.dist_pos == a.dist_pos
    &&& b.colors@.len() == 132
    &&& if vertical {
        let s1 = if a.lp.inc > 0 { -s } else { s };
        let k1 = first_above(a.dist_pos@, w + s1, 1);
        let k2 = first_above(a.dist_pos@, w - s1, 1);
        &&& b.y == a.y + a.lp.inc
        &&& b.x == a.x_after_ver()
        &&& b.old_x == b.x
        &&& b.old_y == a.old_y
        &&& b.di == a.di_after_ver()
        &&& forall|t: int| -k2 < t < k1 ==> #[trigger] b.colors@[66 + t]
                == (if de + t * d.dy_end > 0 && ds + t * d.dy_start <= 0 {
                    pattern_color(pat, (dp + t * d.dy_pict) as i64,
                        img_row(-s, a.lp.inc <= 0, a.dist_pos@, t) as i64)
                } else {
                    Rgba8 { r: 0, g: 0, b: 0, a: 0 }
                })
    } else {
        let s1 = if a.lp.inc < 0 { -s } else { s };
        let k1 = first_above(a.dist_pos@, w + s1, 1);
        let k2 = first_above(a.dist_pos@, w - s1, 1);
        &&& b.x == a.x + a.lp.inc
        &&& b.y == a.y_after_hor()
        &&& b.old_y == b.y
        &&& b.old_x == a.old_x
        &&& b.di == a.di_after_hor()
        &&& forall|t: int| -k2 < t < k1 ==> #[trigger] b.colors@[66 + t]
                == (if de - t * d.dx_end > 0 && ds - t * d.dx_start <= 0 {
                    pattern_color(pat, (dp - t * d.dx_pict) as i64,
                        img_row(-s, a.lp.inc > 0, a.dist_pos@, t) as i64)
                } else {
                    Rgba8 { r: 0, g: 0, b: 0, a: 0 }
                })
    }
}

/// The half widths of the spread of the step from `a` to `b`, toward
/// growing and toward decreasing rows or columns
pub open spec fn img_extent(a: LineInterpolatorImage, b: LineInterpolatorImage, vertical: bool) -> (int, int) {
    let s = a.scaled(b.di);
    let s1 = if vertical { if a.lp.inc > 0 { -s } else { s } } else { if a.lp.inc < 0 { -s } else { s } };
    let w = a.width as int;
    (first_above(a.dist_pos@, w + s1, 1), first_above(a.dist_pos@, w - s1, 1))
}

/// Image `after` is image `before` after the step from `a` to `b` drew the
/// colors of `b` at full cover
pub open spec fn img_drawn<T: Pixel>(a: LineInterpolatorImage, b: LineInterpolatorImage, before: RenderingBase<T>,
                                     after: RenderingBase<T>, vertical: bool) -> bool {
    let (k1, k2) = img_extent(a, b, vertical);
    if vertical {
        color_span_done(&before, &after, b.x - k2 + 1, b.y as int, k1 + k2 - 1,
            b.colors@.subrange(67 - k2, 66 + k1), false)
    } else {
        color_span_done(&before, &after, b.x as int, b.y - k2 + 1, k1 + k2 - 1,
            b.colors@.subrange(67 - k2, 66 + k1), true)
    }
}

/// The step from `a` to `b` asks for another: some pixel of the spread was
/// between the cuts, and steps remain
pub open spec fn img_more(a: LineInterpolatorImage, b: LineInterpolatorImage, vertical: bool) -> bool {
    let d = b.di;
    let ds = d.dist_start as int;
    let de = d.dist_end as int;
    let (k1, k2) = img_extent(a, b, vertical);
    let npix = (if de > 0 { 1int } else { 0 }) + if vertical {
        count_inside(ds, d.dy_start as int, de, d.dy_end as int, k1 - 1)
            + count_inside(ds, -d.dy_start, de, -d.dy_end, k2 - 1)
    } else {
        count_inside(ds, -d.dx_start, de, -d.dx_end, k1 - 1)
            + count_inside(ds, d.dx_start as int, de, d.dx_end as int, k2 - 1)
    };
    npix != 0 && b.step < b.count
}

/// A step from `a` can be taken by renderer `r`
pub open spec fn img_pre<T>(a: LineInterpolatorImage, r: &RendererOutlineImg<T>, vertical: bool) -> bool {
    &&& a.steppable()
    &&& if vertical {
        let d = a.di_after_ver();
        let s = a.scaled(d);
        a.spread_ok(d, if a.lp.inc > 0 { -s } else { s }, -s, a.lp.inc <= 0, r)
    } else {
        let d = a.di_after_hor();
        let s = a.scaled(d);
        a.spread_ok(d, if a.lp.inc < 0 { -s } else { s }, -s, a.lp.inc > 0, r)
    }
}

/// `ws` are states one step apart from `ws[0]`, the colors those of
/// pattern `pat`
pub open spec fn img_walk(ws: Seq<LineInterpolatorImage>, pat: LineImagePatternPow2, vertical: bool) -> bool {
    &&& ws.len() >= 1
    &&& forall|k: int| 0 <= k < ws.len() - 1 ==> #[trigger] img_next(ws[k], ws[k + 1], pat, vertical)
}

/// Every one of the first `n` steps of `ws` asked for another
pub open spec fn img_all_more(ws: Seq<LineInterpolatorImage>, vertical: bool, n: int) -> bool {
    forall|k: int| 0 <= k < n ==> #[trigger] img_more(ws[k], ws[k + 1], vertical)
}

/// Every step that the run from `li` takes can be taken by renderer `r`
pub open spec fn img_walk_ok<T>(li: LineInterpolatorImage, r: &RendererOutlineImg<T>) -> bool {
    forall|ws: Seq<LineInterpolatorImage>| #[trigger] img_walk(ws, r.pattern, li.lp.vertical) && ws[0] == li
        && img_all_more(ws, li.lp.vertical, ws.len() - 1) ==> img_pre(ws.last(), r, li.lp.vertical)
}

/// Each of the first `n` steps of `ws` drew its colors, from image
/// `imgs[k]` to image `imgs[k + 1]`
pub open spec fn img_chain<T: Pixel>(ws: Seq<LineInterpolatorImage>, imgs: Seq<RenderingBase<T>>, vertical: bool,
                                     n: int) -> bool {
    forall|k: int| 0 <= k < n ==> #[trigger] img_drawn(ws[k], ws[k + 1], imgs[k], imgs[k + 1], vertical)
}

/// From interpolator `li` and image `before`, the run of steps until one
/// asks for no other ends in interpolator `li2` and image `after`, each
/// step drawing its colors from pattern `pat`
pub open spec fn img_run<T: Pixel>(li: LineInterpolatorImage, li2: LineInterpolatorImage, pat: LineImagePatternPow2,
                                   before: RenderingBase<T>, after: RenderingBase<T>) -> bool {
    let v = li.lp.vertical;
    exists|ws: Seq<LineInterpolatorImage>, imgs: Seq<RenderingBase<T>>| {
        &&& img_walk(ws, pat, v)
        &&& ws.len() >= 2
        &&& ws[0] == li
        &&& ws.last() == li2
        &&& imgs.len() == ws.len()
        &&& imgs[0] == before
        &&& imgs.last() == after
        &&& img_all_more(ws, v, ws.len() - 2)
        &&& !img_more(ws[ws.len() - 2], ws.last(), v)
        &&& #[trigger] img_chain(ws, imgs, v, ws.len() - 1)
    }
}

impl<'a, T: Pixel> RendererOutlineImg<'a, T> {
    /// Step the interpolator `li` along its line until a step asks for no
    /// other, each step drawing the pattern colors around one pixel
    pub fn draw_steps(&mut self, li: &mut LineInterpolatorImage)
        requires
            old(self).ren.wf(),
            img_walk_ok(*old(li), &*old(self)),
        ensures
            final(self).ren.wf(),
            final(self).pattern == old(self).pattern,
            final(self).start == old(self).start,
            img_run(*old(li), *final(li), old(self).pattern, *old(self).ren, *final(self).ren),
    {
        let ghost li0 = *li;
        let ghost r0 = *self;
        let ghost pat = self.pattern;
        let ghost before = *self.ren;
        let vertical = li.vertical();
        let ghost count = li.count;
        let ghost mut ws: Seq<LineInterpolatorImage> = seq![*li];
        let ghost mut imgs: Seq<RenderingBase<T>> = seq![*self.ren];
        loop
            invariant_except_break
                img_all_more(ws, vertical, ws.len() - 1),
                ws.len() > 1 ==> li.step < count,
            invariant
                img_walk(ws, pat, vertical),
                ws[0] == li0,
                ws.last() == *li,
                li.count == count,
                vertical == li0.lp.vertical,
                imgs.len() == ws.len(),
                imgs[0] == before,
                imgs.last() == *self.ren,
                img_chain(ws, imgs, vertical, ws.len() - 1),
                self.ren.wf(),
                self.pattern == pat,
                self.start == r0.start,
                r0.pattern == pat,
                img_walk_ok(li0, &r0),
            ensures
                ws.len() >= 2,
                img_all_more(ws, vertical, ws.len() - 2),
                !img_more(ws[ws.len() - 2], ws.last(), vertical),
            decreases count - li.step + (if ws.len() == 1 { 1int } else { 0 }),
        {
            proof {
                assert(img_pre(ws.last(), &r0, vertical));
            }
            let ghost a = *li;
            let ghost img_a = *self.ren;
            let more = if vertical { li.step_ver(self) } else { li.step_hor(self) };
            proof {
                let b = *li;
                assert(img_next(a, b, pat, vertical));
                assert(img_drawn(a, b, img_a, *self.ren, vertical));
                assert(more == img_more(a, b, vertical));
                let ws0 = ws;
                let imgs0 = imgs;
                ws = ws.push(b);
                imgs = imgs.push(*self.ren);
                assert forall|k: int| 0 <= k < ws.len() - 1 implies #[trigger] img_next(ws[k], ws[k + 1], pat, vertical) by {
                    if k < ws0.len() - 1 {
                        assert(img_next(ws0[k], ws0[k + 1], pat, vertical));
                    }
                }
                assert forall|k: int| 0 <= k < ws.len() - 2 implies #[trigger] img_more(ws[k], ws[k + 1], vertical) by {
                    assert(img_more(ws0[k], ws0[k + 1], vertical));
                }
                if more {
                    assert forall|k: int| 0 <= k < ws.len() - 1 implies #[trigger] img_more(ws[k], ws[k + 1], vertical) by {
                        if k < ws0.len() - 1 {
                            assert(img_more(ws0[k], ws0[k + 1], vertical));
                        }
                    }
                }
                assert forall|k: int| 0 <= k < ws.len() - 1 implies
                    #[trigger] img_drawn(ws[k], ws[k + 1], imgs[k], imgs[k + 1], vertical) by {
                    if k < ws0.len() - 1 {
                        assert(img_chain(ws0, imgs0, vertical, ws0.len() - 1));
                        assert(img_drawn(ws0[k], ws0[k + 1], imgs0[k], imgs0[k + 1], vertical));
                    } else {
                        assert(ws[k] == a && ws[k + 1] == b);
                        assert(imgs[k] == img_a && imgs[k + 1] == *self.ren);
                    }
                }
                assert(img_chain(ws, imgs, vertical, ws.len() - 1));
            }
            if !more {
                break;
            }
        }
        assert(img_run(li0, *li, pat, before, *self.ren));
    }
}


/// A piece of a line drawn in one run: the line and the points its start
/// and end are cut toward
pub type LinePiece = (LineParameters, i64, i64, i64, i64);

/// The line `lp` cut toward (`sx`,`sy`) and (`ex`,`ey`) can be split into
/// pieces: it and every half it is split into are in range
pub open spec fn pieces_ok(lp: LineParameters, sx: i64, sy: i64, ex: i64, ey: i64) -> bool
    decreases lp.len,
{
    &&& lp.wf()
    &&& in_aux(sx as int)
    &&& in_aux(sy as int)
    &&& in_aux(ex as int)
    &&& in_aux(ey as int)
    &&& (lp.len > LINE_MAX_LENGTH ==> {
        let m = mid_cut(lp);
        &&& pieces_ok(halves(lp).0, ((lp.x1 + sx) / 2) as i64, ((lp.y1 + sy) / 2) as i64, m.0, m.1)
        &&& pieces_ok(halves(lp).1, m.0, m.1, ((lp.x2 + ex) / 2) as i64, ((lp.y2 + ey) / 2) as i64)
    })
}

/// The pieces the line `lp` cut toward (`sx`,`sy`) and (`ex`,`ey`) is drawn
/// as: a line longer than `LINE_MAX_LENGTH` as the pieces of its halves,
/// the first cut toward the start point's midpoint with (`sx`,`sy`) and a
/// point off the middle, the second from that point to the end point's
/// midpoint with (`ex`,`ey`); a shorter one as itself, each cut point moved
/// off the line when it lies on it
pub open spec fn line_pieces(lp: LineParameters, sx: i64, sy: i64, ex: i64, ey: i64) -> Seq<LinePiece>
    decreases lp.len,
{
    if lp.len > LINE_MAX_LENGTH {
        let m = mid_cut(lp);
        line_pieces(halves(lp).0, ((lp.x1 + sx) / 2) as i64, ((lp.y1 + sy) / 2) as i64, m.0, m.1)
            + line_pieces(halves(lp).1, m.0, m.1, ((lp.x2 + ex) / 2) as i64, ((lp.y2 + ey) / 2) as i64)
    } else {
        let s = cut_point(lp, sx, sy, false);
        let e = cut_point(lp, ex, ey, true);
        seq![(lp, s.0, s.1, e.0, e.1)]
    }
}

#[verifier::rlimit(40)]
fn add_pieces(lp: &LineParameters, sx: i64, sy: i64, ex: i64, ey: i64, out: &mut Vec<LinePiece>)
    requires
        pieces_ok(*lp, sx, sy, ex, ey),
    ensures
        final(out)@ == old(out)@ + line_pieces(*lp, sx, sy, ex, ey),
    decreases lp.len,
{
    if lp.len > LINE_MAX_LENGTH {
        let (lp1, lp2) = lp.divide();
        let mx = lp1.x2 + (lp1.y2 - lp1.y1);
        let my = lp1.y2 - (lp1.x2 - lp1.x1);
        let tsx: i64 = lp.x1 + sx;
        let tsy: i64 = lp.y1 + sy;
        let tex: i64 = lp.x2 + ex;
        let tey: i64 = lp.y2 + ey;
        proof {
            crate::fixed::lemma_shr1(tsx);
            crate::fixed::lemma_shr1(tsy);
            crate::fixed::lemma_shr1(tex);
            crate::fixed::lemma_shr1(tey);
        }
        assert(lp1 == halves(*lp).0 && lp2 == halves(*lp).1);
        let ghost o0 = out@;
        add_pieces(&lp1, tsx >> 1i64, tsy >> 1i64, mx, my, out);
        let ghost o1 = out@;
        add_pieces(&lp2, mx, my, tex >> 1i64, tey >> 1i64, out);
        assert(out@ =~= o0 + line_pieces(*lp, sx, sy, ex, ey));
        return;
    }
    let (sx, sy) = lp.fix_degenerate_bisectrix_start(sx, sy);
    let (ex, ey) = lp.fix_degenerate_bisectrix_end(ex, ey);
    out.push((*lp, sx, sy, ex, ey));
}

/// The pieces the line `lp` cut toward (`sx`,`sy`) and (`ex`,`ey`) is drawn
/// as, in order, each with the points its ends are cut toward
pub fn line3_pieces(lp: &LineParameters, sx: i64, sy: i64, ex: i64, ey: i64) -> (r: Vec<LinePiece>)
    requires
        pieces_ok(*lp, sx, sy, ex, ey),
    ensures
        r@ == line_pieces(*lp, sx, sy, ex, ey),
{
    let mut out: Vec<LinePiece> = Vec::new();
    add_pieces(lp, sx, sy, ex, ey, &mut out);
    assert(out@ =~= line_pieces(*lp, sx, sy, ex, ey));
    out
}

} // verus!
