use agg::line_interp::{DistanceInterpolator, DistanceInterpolator2, DistanceInterpolator3,
                       LineParameters, AA0, AA1, AA2, AA3, DrawVars};
use agg::outline::Subpixel;
use agg::outline_aa::EllipseInterpolator;
use agg::render::{BresehamInterpolator, DistanceInterpolator4, LineInterpolator};
use agg::base::RenderingBase;
use agg::color::{Rgb8, Rgba8};
use agg::outline_aa::RendererOutlineAA;
use agg::pixfmt::Pixfmt;
use agg::Pixel;

const WIDTH: i64 = 256;

fn white_base(w: usize, h: usize) -> RenderingBase<Pixfmt<Rgb8>> {
    let mut base = RenderingBase::new(Pixfmt::<Rgb8>::new(w, h));
    base.clear(Rgba8::white());
    base
}

/// A profile whose entries differ from their neighbours
fn ramp_profile() -> Vec<u8> {
    (0..(WIDTH + 6 * 256) as usize).map(|i| (i % 251) as u8).collect()
}

/// Pixels of the image that are no longer white
fn marked(base: &RenderingBase<Pixfmt<Rgb8>>) -> Vec<(usize, usize)> {
    let mut v = vec![];
    for y in 0..base.pixf.height() {
        for x in 0..base.pixf.width() {
            if base.pixf.get((x, y)) != Rgb8::new(255, 255, 255) {
                v.push((x, y));
            }
        }
    }
    v
}

#[test]
fn dda_steps_reach_the_end_and_back() {
    let mut li = LineInterpolator::new(0, 10, 4);
    assert_eq!((li.count, li.left, li.rem, li.xmod, li.y), (4, 2, 2, -2, 0));
    let mut ys = vec![];
    for _ in 0..4 {
        li.inc();
        ys.push(li.y);
    }
    assert_eq!(ys, vec![2, 5, 7, 10]);
    li.dec();
    assert_eq!(li.y, 7);
    li.inc();
    assert_eq!(li.y, 10);
    // a count below one counts as one
    let li = LineInterpolator::new(3, 8, 0);
    assert_eq!(li.count, 1);
    let li = LineInterpolator::new_back_adjusted_2(10, 4);
    assert_eq!((li.count, li.left, li.rem, li.xmod, li.y), (4, 2, 2, 2, 0));
    let mut li = LineInterpolator::new_foward_adjusted(0, 10, 4);
    li.adjust_forward();
    assert_eq!(li.xmod, -6);
}

#[test]
fn breseham_steps() {
    let mut b = BresehamInterpolator::new(Subpixel::from(0), Subpixel::from(0),
                                          Subpixel::from(10 * 256), Subpixel::from(3 * 256));
    assert!(!b.ver);
    assert_eq!((b.x1, b.y1, b.len, b.inc), (0, 0, 10, 1));
    assert_eq!((b.func.left, b.func.rem, b.func.xmod), (76, 8, -2));
    b.hstep();
    assert_eq!((b.x1, b.func.y, b.y2), (1, 77, 0));
    for _ in 0..9 {
        b.hstep();
    }
    assert_eq!((b.x1, b.func.y, b.y2), (10, 768, 3));
    let mut v = BresehamInterpolator::new(Subpixel::from(0), Subpixel::from(0),
                                          Subpixel::from(256), Subpixel::from(-5 * 256));
    assert!(v.ver);
    assert_eq!((v.len, v.inc), (5, -1));
    v.vstep();
    assert_eq!(v.y1, -1);
}

#[test]
fn subpixel_conversions() {
    assert_eq!(i64::from(Subpixel::from(513)), 2);
    assert_eq!(i64::from(Subpixel::from(-1)), -1);
    assert_eq!(Subpixel::from(77).value(), 77);
}

#[test]
fn ellipse_interpolator_first_steps() {
    let mut e = EllipseInterpolator::new(3, 3);
    assert_eq!((e.rx2, e.ry2, e.two_rx2, e.two_ry2, e.inc_x, e.inc_y, e.cur_f), (9, 9, 18, 18, 0, -54, 0));
    e.inc();
    assert_eq!((e.dx, e.dy, e.inc_x, e.inc_y, e.cur_f), (1, 0, 18, -54, 9));
    // walking the quadrant the function stays that of the point reached
    let (mut sx, mut sy) = (1i64, 0i64);
    while sy < 3 {
        e.inc();
        sx += e.dx;
        sy += e.dy;
        assert_eq!(e.cur_f, 9 * sx * sx + 9 * (sy - 3) * (sy - 3) - 81);
    }
}

#[test]
fn distance_steps_undo() {
    let mut d = DistanceInterpolator4 {
        dx: 100, dy: 30, dx_start: 5, dy_start: 7, dx_pict: -2, dy_pict: 3,
        dx_end: 11, dy_end: 13, dist: 1000, dist_start: 50, dist_pict: 60, dist_end: 70, len: 9,
    };
    d.inc_x_by(1);
    assert_eq!((d.dist, d.dist_start, d.dist_pict, d.dist_end), (930, 52, 65, 72));
    d.dec_x_by(-1);
    assert_eq!((d.dist, d.dist_start, d.dist_pict, d.dist_end), (1000, 50, 60, 70));
    d.inc_y_by(-1);
    assert_eq!((d.dist, d.dist_start, d.dist_pict, d.dist_end), (870, 38, 59, 46));
    d.dec_y_by(1);
    assert_eq!((d.dist, d.dist_start, d.dist_pict, d.dist_end), (1000, 50, 60, 70));

    let mut d2 = DistanceInterpolator2::new(0, 0, 2560, 0, 0, -512, 0, 0, true);
    let s0 = d2.dist_start;
    d2.inc_x(0);
    d2.dec_x(0);
    assert_eq!(d2.dist_start, s0);
    let d3 = DistanceInterpolator3::new(0, 0, 2560, 0, 0, -512, 2560, 512, 0, 0);
    assert_eq!((d3.dx, d3.dy), (2560 * 256, 0));
}

#[test]
fn line_parameters_examples() {
    let lp = LineParameters::new(0, 0, 100, 50, 100);
    assert_eq!((lp.dx, lp.dy, lp.vertical, lp.sx, lp.sy, lp.inc, lp.octant), (100, 50, false, 1, 1, 1, 0));
    assert_eq!(lp.diagonal_quadrant(), 0);
    let lp2 = LineParameters::new(0, 0, -10, 100, 100);
    assert_eq!((lp2.vertical, lp2.sx, lp2.sy, lp2.inc, lp2.octant), (true, -1, 1, 1, 3));
    assert_eq!(lp2.diagonal_quadrant(), 1);
    let (a, b) = lp.divide();
    assert_eq!((a.x1, a.y1, a.x2, a.y2, a.len), (0, 0, 50, 25, 50));
    assert_eq!((b.x1, b.y1, b.x2, b.y2, b.len), (50, 25, 100, 50, 50));
    let h = LineParameters::new(0, 0, 1000, 0, 1000);
    assert_eq!(h.fix_degenerate_bisectrix_end(1000, 0), (1000, -1000));
    assert_eq!(h.fix_degenerate_bisectrix_end(1000, -500), (1000, -500));
    assert_eq!(h.fix_degenerate_bisectrix_start(0, 0), (0, -1000));
    assert_eq!(h.fix_degenerate_bisectrix_start(0, -500), (0, -500));
    let z = LineParameters::default();
    assert_eq!((z.x1, z.len, z.vertical, z.octant), (0, 0, false, 0));
    let dv = DrawVars::new();
    assert_eq!((dv.idx, dv.flags, dv.curr.len), (0, 0, 0));
}

#[test]
fn aa0_draws_one_span_per_pixel_column() {
    let lp = LineParameters::new(0, 0, 10 * 256, 2 * 256, 2611);
    let mut aa = AA0::new(lp, WIDTH);
    assert_eq!(aa.count(), 10);
    assert!(!aa.vertical());
    let mut base = white_base(16, 8);
    let mut n = 0;
    {
        let mut ren = RendererOutlineAA::with_profile(&mut base, vec![255u8; (WIDTH + 6 * 256) as usize], WIDTH);
        while aa.step_hor(&mut ren) {
            n += 1;
        }
    }
    assert_eq!(n, 9);
    let m = marked(&base);
    for x in 1..=10 {
        assert!(m.iter().any(|&(px, _)| px == x));
    }
    assert!(m.iter().all(|&(px, _)| (1..=10).contains(&px)));
}

#[test]
fn aa_interpolators_with_ends() {
    let lp = LineParameters::new(0, 0, 8 * 256, 0, 8 * 256);
    let full = vec![255u8; (WIDTH + 6 * 256) as usize];
    // cut at the start by a bisectrix square to the line
    let mut b1 = white_base(12, 4);
    {
        let mut ren = RendererOutlineAA::with_profile(&mut b1, full.clone(), WIDTH);
        let mut a1 = AA1::new(lp, 0, -2048, WIDTH);
        assert!(!a1.vertical());
        while a1.step_hor(&mut ren) {}
    }
    assert!(!marked(&b1).is_empty());
    // cut at the end
    let mut b2 = white_base(12, 4);
    {
        let mut ren = RendererOutlineAA::with_profile(&mut b2, full.clone(), WIDTH);
        let mut a2 = AA2::new(lp, 8 * 256, -2048, WIDTH);
        assert!(!a2.vertical());
        let mut n = 0;
        while a2.step_hor(&mut ren) && n < 100 {
            n += 1;
        }
    }
    assert!(!marked(&b2).is_empty());
    // a vertical line cut at both ends: one step draws within one row
    let lpv = LineParameters::new(0, 0, 0, 8 * 256, 8 * 256);
    let mut b3 = white_base(4, 12);
    let y;
    {
        let mut ren = RendererOutlineAA::with_profile(&mut b3, full, WIDTH);
        let mut a3 = AA3::new(lpv, 2048, 0, 2048, 8 * 256, WIDTH);
        assert!(a3.vertical());
        let _ = a3.step_ver(&mut ren);
        y = a3.li.y as usize;
    }
    assert!(marked(&b3).iter().all(|&(_, py)| py == y));
}

#[test]
fn aa0_spread_covers_follow_the_distance_table() {
    let lp = LineParameters::new(0, 2 * 256 + 100, 10 * 256, 4 * 256, 2570);
    let mut aa = AA0::new(lp, WIDTH);
    let profile = ramp_profile();
    let mut base = white_base(16, 8);
    let color = Rgba8::new(10, 20, 30, 200);
    {
        let mut ren = RendererOutlineAA::with_profile(&mut base, profile.clone(), WIDTH);
        ren.color(color);
        aa.step_hor(&mut ren);
    }
    let s1 = aa.di.dist / aa.li.len;
    let w = aa.li.width;
    let k1 = (1..=64).find(|&k| aa.li.dist[k] - s1 > w).unwrap();
    let k2 = (1..=64).find(|&k| aa.li.dist[k] + s1 > w).unwrap();
    let cover = |d: i64| profile[(d + 512) as usize] as u64;
    let mut covers = vec![0u64; k1 + k2 - 1];
    covers[k2 - 1] = cover(s1);
    for t in 1..k1 {
        covers[k2 - 1 + t] = cover(aa.li.dist[t] - s1);
    }
    for t in 1..k2 {
        covers[k2 - 1 - t] = cover(aa.li.dist[t] + s1);
    }
    let mut expected = white_base(16, 8);
    expected.blend_solid_vspan(aa.li.x, aa.li.y - k2 as i64 + 1, (k1 + k2 - 1) as i64, color, &covers);
    assert_eq!(base.as_bytes(), expected.as_bytes());
    assert!(!marked(&base).is_empty());
}

#[test]
fn pattern_distances_from_a_line() {
    let d = DistanceInterpolator4::with_pattern_step(0, 0, 2560, 0, 0, -256, 2560, 256, 0, 0, 2560, 256, 0);
    assert_eq!((d.dx, d.dy), (655360, 0));
    assert_eq!((d.dx_start, d.dy_start), (0, -256));
    assert_eq!((d.dx_end, d.dy_end), (0, 256));
    assert_eq!((d.dx_pict, d.dy_pict), (0, 256));
    assert_eq!(d.dist, -327680);
    assert_eq!(d.dist_start, -128);
    assert_eq!(d.dist_end, -2432);
    assert_eq!(d.dist_pict, 128);
    assert_eq!(d.len, 2560);
    // the pattern distance is rounded toward minus infinity
    let d = DistanceInterpolator4::with_pattern_step(0, 0, 2560, 0, 0, -256, 2560, 256, 0, 0, 2560, -5, 2);
    assert_eq!((d.dx_pict, d.dy_pict), (-2, -5));
    assert_eq!(d.dist_pict, -2);
}
