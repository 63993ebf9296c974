use agg::base::RenderingBase;
use agg::color::{Rgb8, Rgba8};
use agg::conv_stroke::LineJoin;
use agg::line_interp::{LineParameters, AA0, AA1, AA2};
use agg::render::{DistanceInterpolator4, LineInterpolator};
use agg::outline_aa::{line_to, outline_ops, OutlineOp, RendererOutlineAA};
use agg::outline_dot::isqrt;
use agg::pixfmt::Pixfmt;
use agg::Pixel;

fn white_base(w: usize, h: usize) -> RenderingBase<Pixfmt<Rgb8>> {
    let mut base = RenderingBase::new(Pixfmt::<Rgb8>::new(w, h));
    base.clear(Rgba8::white());
    base
}

fn px(base: &RenderingBase<Pixfmt<Rgb8>>, x: usize, y: usize) -> Rgb8 {
    base.pixf.get((x, y))
}

fn ends(l: &LineParameters) -> (i64, i64, i64, i64, i64) {
    (l.x1, l.y1, l.x2, l.y2, l.len)
}

fn profile(width: i64) -> Vec<u8> {
    vec![255u8; (width + 6 * 256) as usize]
}

#[test]
fn two_vertices_give_one_square_line() {
    let vs = [(0, 0), (2560, 0)];
    let lens = [2560, 2560];
    let bis = [(0, 0), (0, 0)];
    let ops = outline_ops(&vs, &lens, &bis, false, LineJoin::Miter);
    assert_eq!(ops.len(), 1);
    match ops[0] {
        OutlineOp::Line3(l, sx, sy, ex, ey) => {
            assert_eq!(ends(&l), (0, 0, 2560, 0, 2560));
            assert_eq!((sx, sy, ex, ey), (0, -2560, 2560, -2560));
        }
        _ => panic!("expected a line cut at both ends"),
    }
}

#[test]
fn round_caps_add_half_discs() {
    let vs = [(0, 0), (2560, 0)];
    let lens = [2560, 2560];
    let bis = [(0, 0), (0, 0)];
    let ops = outline_ops(&vs, &lens, &bis, true, LineJoin::Miter);
    assert_eq!(ops.len(), 3);
    assert!(matches!(ops[0], OutlineOp::Semidot(true, 0, 0, 0, -2560)));
    assert!(matches!(ops[1], OutlineOp::Line3(_, 0, -2560, 2560, -2560)));
    assert!(matches!(ops[2], OutlineOp::Semidot(false, 2560, 0, 2560, -2560)));
}

#[test]
fn three_vertices_round_join_adds_a_pie() {
    let vs = [(0, 0), (2560, 0), (2560, 2560)];
    let lens = [2560, 2560, 3620];
    let bis = [(0, 0), (7, 8), (0, 0)];
    let ops = outline_ops(&vs, &lens, &bis, false, LineJoin::Round);
    assert_eq!(ops.len(), 3);
    assert!(matches!(ops[0], OutlineOp::Line3(_, 0, -2560, 2560, -2560)));
    assert!(matches!(ops[1], OutlineOp::Pie(2560, 0, 2560, -2560, 5120, 0)));
    match ops[2] {
        OutlineOp::Line3(l, sx, sy, ex, ey) => {
            assert_eq!(ends(&l), (2560, 0, 2560, 2560, 2560));
            assert_eq!((sx, sy, ex, ey), (5120, 0, 5120, 2560));
        }
        _ => panic!("expected a line cut at both ends"),
    }
}

#[test]
fn three_vertices_miter_join_meets_at_the_bisectrix() {
    let vs = [(0, 0), (2560, 0), (2560, 2560)];
    let lens = [2560, 2560, 3620];
    let bis = [(0, 0), (7, 8), (0, 0)];
    let ops = outline_ops(&vs, &lens, &bis, false, LineJoin::Miter);
    assert_eq!(ops.len(), 2);
    assert!(matches!(ops[0], OutlineOp::Line3(_, 0, -2560, 7, 8)));
    assert!(matches!(ops[1], OutlineOp::Line3(_, 7, 8, 5120, 2560)));
}

#[test]
fn many_vertices_bevel_join_leaves_inner_ends_uncut() {
    let vs = [(0, 0), (2560, 0), (2560, 2560), (0, 2560)];
    let lens = [2560, 2560, 2560, 2560];
    let bis = [(0, 0); 4];
    let ops = outline_ops(&vs, &lens, &bis, false, LineJoin::Bevel);
    assert_eq!(ops.len(), 3);
    match ops[0] {
        OutlineOp::Line1(l, sx, sy) => {
            assert_eq!(ends(&l), (0, 0, 2560, 0, 2560));
            assert_eq!((sx, sy), (0, -2560));
        }
        _ => panic!("expected a line cut at its start"),
    }
    match ops[1] {
        OutlineOp::Line0(l) => assert_eq!(ends(&l), (2560, 0, 2560, 2560, 2560)),
        _ => panic!("expected an uncut line"),
    }
    match ops[2] {
        OutlineOp::Line2(l, ex, ey) => {
            assert_eq!(ends(&l), (2560, 2560, 0, 2560, 2560));
            assert_eq!((ex, ey), (0, 5120));
        }
        _ => panic!("expected a line cut at its end"),
    }
}

#[test]
fn fewer_than_two_vertices_draw_nothing() {
    assert_eq!(outline_ops(&[], &[], &[], true, LineJoin::Round).len(), 0);
    assert_eq!(outline_ops(&[(5, 5)], &[0], &[(0, 0)], true, LineJoin::Round).len(), 0);
}

#[test]
fn short_last_segment_is_dropped() {
    let mut vs = vec![(0, 0), (100, 0)];
    line_to(&mut vs, 300, 0, 100);
    assert_eq!(vs, vec![(0, 0), (300, 0)]);
    let mut vs = vec![(0, 0), (500, 0)];
    line_to(&mut vs, 900, 0, 500);
    assert_eq!(vs, vec![(0, 0), (500, 0), (900, 0)]);
    let mut vs = vec![(0, 0)];
    line_to(&mut vs, 10, 0, 0);
    assert_eq!(vs, vec![(0, 0), (10, 0)]);
}

#[test]
fn uncut_line_is_drawn() {
    let mut base = white_base(8, 8);
    {
        let mut ren = RendererOutlineAA::with_profile(&mut base, profile(256), 256);
        let lp = LineParameters::new(640, 0, 640, 1536, 1536);
        ren.line0(&lp);
    }
    assert_eq!(px(&base, 2, 3), Rgb8::new(0, 0, 0));
    assert_eq!(px(&base, 6, 3), Rgb8::new(255, 255, 255));
    assert_eq!(px(&base, 2, 7), Rgb8::new(255, 255, 255));
}

#[test]
fn line_cut_at_start_is_drawn() {
    let mut base = white_base(8, 8);
    {
        let mut ren = RendererOutlineAA::with_profile(&mut base, profile(256), 256);
        let lp = LineParameters::new(640, 0, 640, 1536, 1536);
        ren.line1(&lp, 640 + 1536, 0);
    }
    assert_eq!(px(&base, 2, 3), Rgb8::new(0, 0, 0));
    assert_eq!(px(&base, 6, 3), Rgb8::new(255, 255, 255));
    assert_eq!(px(&base, 2, 7), Rgb8::new(255, 255, 255));
}

#[test]
fn line_cut_at_end_is_drawn() {
    let mut base = white_base(8, 8);
    {
        let mut ren = RendererOutlineAA::with_profile(&mut base, profile(256), 256);
        let lp = LineParameters::new(640, 0, 640, 1536, 1536);
        ren.line2(&lp, 640 + 1536, 1536);
    }
    assert_eq!(px(&base, 2, 3), Rgb8::new(0, 0, 0));
    assert_eq!(px(&base, 6, 3), Rgb8::new(255, 255, 255));
    assert_eq!(px(&base, 2, 7), Rgb8::new(255, 255, 255));
}

#[test]
fn line_cut_at_both_ends_is_drawn() {
    let mut base = white_base(8, 8);
    {
        let mut ren = RendererOutlineAA::with_profile(&mut base, profile(256), 256);
        let lp = LineParameters::new(640, 0, 640, 1536, 1536);
        ren.line3(&lp, 640 + 1536, 0, 640 + 1536, 1536);
    }
    assert_eq!(px(&base, 2, 3), Rgb8::new(0, 0, 0));
    assert_eq!(px(&base, 6, 3), Rgb8::new(255, 255, 255));
    assert_eq!(px(&base, 2, 7), Rgb8::new(255, 255, 255));
}

#[test]
fn operations_of_an_outline_draw_it() {
    let mut base = white_base(8, 8);
    {
        let mut ren = RendererOutlineAA::with_profile(&mut base, profile(128), 128);
        let ops = outline_ops(&[(0, 640), (1536, 640)], &[1536, 1536], &[(0, 0), (0, 0)], false,
                              LineJoin::Miter);
        assert_eq!(ops.len(), 1);
        ren.draw_ops(&ops);
    }
    assert_eq!(px(&base, 3, 2), Rgb8::new(0, 0, 0));
    assert_eq!(px(&base, 3, 6), Rgb8::new(255, 255, 255));
    assert_eq!(px(&base, 7, 2), Rgb8::new(255, 255, 255));
}

#[test]
fn integer_square_root() {
    assert_eq!(isqrt(0), 0);
    assert_eq!(isqrt(15), 3);
    assert_eq!(isqrt(16), 4);
    assert_eq!(isqrt(65536 + 65536), 362);
    assert_eq!(isqrt(0x10_0000_0000_0000), 0x400_0000);
}

#[test]
fn end_cap_covers_the_end_side() {
    let mut base = white_base(8, 8);
    {
        let mut ren = RendererOutlineAA::with_profile(&mut base, profile(256), 256);
        ren.semidot(false, 640, 640, 640, -896);
    }
    assert_eq!(px(&base, 2, 2), Rgb8::new(0, 0, 0));
    assert_eq!(px(&base, 3, 2), Rgb8::new(0, 0, 0));
    assert_eq!(px(&base, 2, 1), Rgb8::new(0, 0, 0));
    assert_eq!(px(&base, 2, 3), Rgb8::new(0, 0, 0));
    assert_eq!(px(&base, 1, 2), Rgb8::new(255, 255, 255));
    assert_eq!(px(&base, 5, 5), Rgb8::new(255, 255, 255));
}

#[test]
fn start_cap_covers_the_start_side() {
    let mut base = white_base(8, 8);
    {
        let mut ren = RendererOutlineAA::with_profile(&mut base, profile(256), 256);
        ren.semidot(true, 640, 640, 640, -896);
    }
    assert_eq!(px(&base, 1, 2), Rgb8::new(0, 0, 0));
    assert_eq!(px(&base, 2, 2), Rgb8::new(255, 255, 255));
    assert_eq!(px(&base, 3, 2), Rgb8::new(255, 255, 255));
}

#[test]
fn round_join_covers_its_slice() {
    let mut base = white_base(8, 8);
    {
        let mut ren = RendererOutlineAA::with_profile(&mut base, profile(256), 256);
        ren.pie(640, 640, 640, -896, 2176, 640);
    }
    assert_eq!(px(&base, 2, 1), Rgb8::new(0, 0, 0));
    assert_eq!(px(&base, 2, 2), Rgb8::new(255, 255, 255));
    assert_eq!(px(&base, 2, 3), Rgb8::new(255, 255, 255));
    assert_eq!(px(&base, 3, 2), Rgb8::new(255, 255, 255));
    assert_eq!(px(&base, 1, 2), Rgb8::new(255, 255, 255));
}

#[test]
fn line_cut_at_start_takes_its_pixels_plus_the_steps_back() {
    let mut base = white_base(8, 8);
    let mut ren = RendererOutlineAA::with_profile(&mut base, profile(256), 256);
    let lp = LineParameters::new(640, 0, 640, 1536, 1536);
    let mut li = AA1::new(lp, 640 + 1536, 0, 256);
    assert!(li.vertical());
    let (count, max_extent) = (li.li.count, li.li.max_extent);
    assert_eq!((count, max_extent), (6, 1));
    let mut n = 1;
    while li.step_ver(&mut ren) {
        assert_eq!(li.li.y, li.li.step);
        n += 1;
    }
    assert!(count + 1 <= n && n <= count + max_extent + 1);
    assert_eq!(li.li.step, count);
    assert_eq!(li.li.y, 6);
}

#[test]
fn uncut_line_steps_one_pixel_at_a_time() {
    let mut base = white_base(8, 8);
    let mut ren = RendererOutlineAA::with_profile(&mut base, profile(256), 256);
    let lp = LineParameters::new(0, 640, 1536, 640, 1536);
    let mut li = AA0::new(lp, 256);
    let mut k = 0;
    loop {
        let more = li.step_hor(&mut ren);
        k += 1;
        assert_eq!((li.li.x, li.li.step), (k, k));
        if !more {
            break;
        }
    }
    assert_eq!(k, 6);
}

#[test]
fn back_adjusted_interpolator_moved_forward_is_a_new_one() {
    let mut a = LineInterpolator::new_back_adjusted_2(700, 3);
    a.adjust_forward();
    let b = LineInterpolator::new(0, 700, 3);
    assert_eq!((a.count, a.left, a.rem, a.xmod, a.y), (b.count, b.left, b.rem, b.xmod, b.y));
    let mut c = LineInterpolator::new_back_adjusted_2(-700, 3);
    c.adjust_forward();
    let d = LineInterpolator::new(0, -700, 3);
    assert_eq!((c.count, c.left, c.rem, c.xmod, c.y), (d.count, d.left, d.rem, d.xmod, d.y));
}

#[test]
fn step_back_undoes_step_forward() {
    let mut a = LineInterpolator::new_back_adjusted_2(700, 3);
    let before = (a.count, a.left, a.rem, a.xmod, a.y);
    a.inc();
    a.dec();
    assert_eq!((a.count, a.left, a.rem, a.xmod, a.y), before);
    let mut di = DistanceInterpolator4 {
        dx: 1536 << 8, dy: 77, dx_start: 5, dy_start: -96 << 4, dx_pict: 3, dy_pict: 256,
        dx_end: 9, dy_end: -96 << 4, dist: 11, dist_start: -768, dist_pict: 128,
        dist_end: 8448, len: 1536,
    };
    di.inc_x_by(1);
    di.dec_x_by(-1);
    assert_eq!((di.dist, di.dist_start, di.dist_pict, di.dist_end), (11, -768, 128, 8448));
    di.inc_y_by(-1);
    di.dec_y_by(1);
    assert_eq!((di.dist, di.dist_start, di.dist_pict, di.dist_end), (11, -768, 128, 8448));
}

#[test]
fn outline_with_round_caps_is_drawn() {
    let mut base = white_base(8, 8);
    {
        let mut ren = RendererOutlineAA::with_profile(&mut base, profile(128), 128);
        let ops = outline_ops(&[(640, 640), (1152, 640)], &[512, 512], &[(0, 0), (0, 0)], true,
                              LineJoin::Round);
        assert_eq!(ops.len(), 3);
        for op in ops.iter() {
            ren.draw_op(op);
        }
    }
    assert_eq!(px(&base, 3, 2), Rgb8::new(0, 0, 0));
    assert_eq!(px(&base, 6, 6), Rgb8::new(255, 255, 255));
}

#[test]
fn forward_steps_follow_the_line() {
    let mut li = LineInterpolator::new(0, 10, 4);
    let mut ys = vec![];
    for _ in 0..4 {
        li.inc();
        ys.push(li.y);
    }
    assert_eq!(ys, vec![2, 5, 7, 10]);
    let mut li = LineInterpolator::new(0, -10, 4);
    let mut ys = vec![];
    for _ in 0..4 {
        li.inc();
        ys.push(li.y);
    }
    assert_eq!(ys, vec![-3, -5, -8, -10]);
    let li = LineInterpolator::new_foward_adjusted(3, 1000, 7);
    let b = LineInterpolator::new(3, 1000, 7);
    assert_eq!((li.count, li.left, li.rem, li.xmod, li.y), (b.count, b.left, b.rem, b.xmod, b.y));
}

#[test]
fn backward_steps_follow_the_line() {
    let mut li = LineInterpolator::new_back_adjusted_2(10, 4);
    let mut ys = vec![];
    for _ in 0..4 {
        li.dec();
        ys.push(li.y);
    }
    assert_eq!(ys, vec![-3, -5, -8, -10]);
}

#[test]
fn line_cut_at_end_takes_at_most_its_pixels_and_the_width_extent() {
    let mut base = white_base(8, 8);
    let mut ren = RendererOutlineAA::with_profile(&mut base, profile(256), 256);
    let lp = LineParameters::new(640, 0, 640, 1536, 1536);
    let mut li = AA2::new(lp, 640 + 1536, 1536, 256);
    let (count, max_extent) = (li.li.count, li.li.max_extent);
    let mut n = 1;
    while li.step_ver(&mut ren) {
        assert_eq!(li.li.y, n);
        n += 1;
    }
    assert!(n <= count + max_extent);
}

#[test]
fn range_checks() {
    assert!(agg::outline_aa::vertices_in_range(&[(0, 0), (1 << 40, -(1 << 40))]));
    assert!(!agg::outline_aa::vertices_in_range(&[(0, 0), (i64::MAX, 0)]));
    assert!(LineParameters::new(0, 0, 2560, 100, 2562).is_valid());
    assert!(!LineParameters::new(0, 0, 1 << 30, 0, 1 << 30).is_valid());
    let mut lp = LineParameters::new(0, 0, 2560, 100, 2562);
    lp.inc = -lp.inc;
    assert!(!lp.is_valid());
    let di = DistanceInterpolator4 {
        dx: 1536 << 8, dy: 0, dx_start: 0, dy_start: -96 << 4, dx_pict: 0, dy_pict: 256,
        dx_end: 0, dy_end: -96 << 4, dist: 0, dist_start: -768, dist_pict: 128,
        dist_end: 8448, len: 1536,
    };
    assert!(agg::outline_img::distances_in_range(&di));
    let far = DistanceInterpolator4 { dist: i64::MAX, ..di };
    assert!(!agg::outline_img::distances_in_range(&far));
}
