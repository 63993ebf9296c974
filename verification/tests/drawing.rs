use agg::base::RenderingBase;
use agg::buffer::RenderingBuffer;
use agg::color::{Rgb8, Rgba8};
use agg::pixfmt::Pixfmt;
use agg::raster::{Cell, FillingRule, PathStatus, RasterizerScanline};
use agg::render::{render_scanline_aa_solid, render_scanline_bin_solid, GradientX, LineImagePattern,
                  LineImagePatternPow2, PatternFilterBilinear, Render, RenderData,
                  RenderingScanlineAASolid, RenderingScanlineBinSolid};
use agg::scan::{ScanlineU8, LAST_X};
use agg::{Pixel, Source};
use agg::line_interp::{LineParameters, AA0};
use agg::outline_aa::RendererOutlineAA;
use agg::RenderOutline;
use agg::outline_img::{LineInterpolatorImage, RendererOutlineImg};
use agg::render::DistanceInterpolator4;

fn white_base(w: usize, h: usize) -> RenderingBase<Pixfmt<Rgb8>> {
    let mut base = RenderingBase::new(Pixfmt::<Rgb8>::new(w, h));
    base.clear(Rgba8::white());
    base
}

fn px(base: &RenderingBase<Pixfmt<Rgb8>>, x: usize, y: usize) -> Rgb8 {
    base.pixf.get((x, y))
}

#[test]
fn scanline_cells_and_spans_merge() {
    let mut sl = ScanlineU8::new();
    assert_eq!((sl.last_x, sl.min_x, sl.y, sl.num_spans()), (LAST_X, 0, 0, 0));
    sl.reset(10, 100);
    sl.add_cell(12, 50);
    sl.add_cell(13, 60);
    assert_eq!(sl.num_spans(), 1);
    assert_eq!((sl.spans[0].x, sl.spans[0].len, sl.spans[0].covers.clone()), (12, 2, vec![50, 60]));
    sl.add_span(20, 3, 7);
    sl.add_span(23, 2, 9);
    assert_eq!(sl.num_spans(), 2);
    assert_eq!((sl.spans[1].x, sl.spans[1].len, sl.spans[1].covers.clone()), (20, 5, vec![7, 7, 7, 9, 9]));
    assert_eq!(sl.last_x, 14);
    assert_eq!(sl.covers.get(&2), Some(&50));
    assert_eq!(sl.covers.get(&13), Some(&9));
    sl.finalize(5);
    assert_eq!(sl.y, 5);
    sl.reset_spans();
    assert_eq!(sl.num_spans(), 0);
    assert!(sl.covers.is_empty());
}

#[test]
fn alpha_from_area() {
    let mut ras = RasterizerScanline::new();
    assert_eq!(ras.status, PathStatus::Initial);
    assert_eq!(ras.gamma.len(), 256);
    assert_eq!(ras.calculate_alpha(0), 0);
    assert_eq!(ras.calculate_alpha(512 * 100), 100);
    assert_eq!(ras.calculate_alpha(-512 * 100), 100);
    assert_eq!(ras.calculate_alpha(512 * 300), 255);
    assert_eq!(ras.calculate_alpha(511), 0);
    ras.filling_rule = FillingRule::EvenOdd;
    assert_eq!(ras.calculate_alpha(512), 1);
    assert_eq!(ras.calculate_alpha(1024), 0);
    assert_eq!(FillingRule::default(), FillingRule::NonZero);
    assert_eq!(PathStatus::default(), PathStatus::Initial);
}

#[test]
fn rendering_buffer_layout() {
    let mut b = RenderingBuffer::new(2, 3, 4);
    assert_eq!(b.len(), 24);
    assert!(b.data.iter().all(|&v| v == 0));
    b.clear();
    assert!(b.data.iter().all(|&v| v == 255));
    let mut b = RenderingBuffer::from_buf(vec![1, 2, 3, 4, 5, 6], 2, 1, 3);
    assert_eq!(&b.pixel((1, 0))[..3], &[4, 5, 6]);
    b.set_component((0, 0), 2, 9);
    assert_eq!(b.data, vec![1, 2, 9, 4, 5, 6]);
}

#[test]
fn base_clips_lines_and_spans() {
    let mut base = white_base(4, 3);
    assert_eq!(base.limits(), (0, 3, 0, 2));
    assert!(base.as_bytes().iter().all(|&v| v == 255));
    base.blend_hline(10, 1, -5, Rgba8::black(), 255);
    for x in 0..4 {
        assert_eq!(px(&base, x, 1), Rgb8::black());
        assert_eq!(px(&base, x, 0), Rgb8::white());
    }
    // a row below the image changes nothing
    let before = base.as_bytes().to_vec();
    base.blend_hline(0, 5, 3, Rgba8::black(), 255);
    assert_eq!(base.as_bytes(), &before[..]);
    // the covers before the image's left edge are skipped
    base.blend_solid_hspan(-1, 0, 3, Rgba8::black(), &[255, 255, 0]);
    assert_eq!(px(&base, 0, 0), Rgb8::black());
    assert_eq!(px(&base, 1, 0), Rgb8::white());
    // the run is cut at the image's bottom edge
    base.blend_solid_vspan(3, 1, 5, Rgba8::new(0, 0, 255, 255), &[255; 5]);
    assert_eq!(px(&base, 3, 0), Rgb8::white());
    assert_eq!(px(&base, 3, 1), Rgb8::new(0, 0, 255));
    assert_eq!(px(&base, 3, 2), Rgb8::new(0, 0, 255));
    let colors = [Rgba8::new(255, 0, 0, 255), Rgba8::new(0, 255, 0, 255), Rgba8::new(0, 0, 9, 255)];
    base.blend_color_hspan(2, 2, 3, &colors, &[], 255);
    assert_eq!(px(&base, 2, 2), Rgb8::new(255, 0, 0));
    assert_eq!(px(&base, 3, 2), Rgb8::new(0, 255, 0));
    base.blend_color_vspan(0, -1, 3, &colors, &[255, 255, 255], 0);
    assert_eq!(px(&base, 0, 0), Rgb8::new(0, 255, 0));
    assert_eq!(px(&base, 0, 1), Rgb8::new(0, 0, 9));
}

#[test]
fn scanline_renderers() {
    let mut data = RenderData::new();
    data.sl.reset(0, 3);
    data.sl.add_span(1, 2, 128);
    data.sl.finalize(0);

    let mut base = white_base(4, 1);
    {
        let mut ren = RenderingScanlineBinSolid::with_base(&mut base);
        assert_eq!(ren.color, Rgba8::black());
        ren.render(&data);
        assert_eq!(ren.as_bytes().len(), 12);
    }
    assert_eq!(px(&base, 0, 0), Rgb8::white());
    assert_eq!(px(&base, 1, 0), Rgb8::black());
    assert_eq!(px(&base, 2, 0), Rgb8::black());
    assert_eq!(px(&base, 3, 0), Rgb8::white());

    let mut base = white_base(4, 1);
    {
        let mut ren = RenderingScanlineAASolid::with_base(&mut base);
        ren.color(&Rgba8::black());
        ren.render(&data);
    }
    assert_eq!(px(&base, 1, 0), Rgb8::gray(127));
    assert_eq!(px(&base, 2, 0), Rgb8::gray(127));
    assert_eq!(px(&base, 3, 0), Rgb8::white());

    let mut sl = ScanlineU8::new();
    sl.add_cell(0, 255);
    let mut base = white_base(2, 1);
    render_scanline_aa_solid(&sl, &mut base, Rgba8::new(10, 20, 30, 255));
    assert_eq!(px(&base, 0, 0), Rgb8::new(10, 20, 30));
    render_scanline_bin_solid(&sl, &mut base, Rgba8::black());
    assert_eq!(px(&base, 0, 0), Rgb8::black());
    assert_eq!(px(&base, 1, 0), Rgb8::white());
}

#[test]
fn bilinear_pattern_filter() {
    let mut pix = Pixfmt::<Rgba8>::new(2, 2);
    pix.copy_pixel(0, 0, Rgba8::new(0, 0, 0, 255));
    pix.copy_pixel(1, 0, Rgba8::new(100, 0, 0, 255));
    pix.copy_pixel(0, 1, Rgba8::new(200, 0, 0, 255));
    pix.copy_pixel(1, 1, Rgba8::new(255, 0, 0, 255));
    let f = PatternFilterBilinear::new();
    assert_eq!(f.dilation(), 1);
    assert_eq!(f.pixel_low_res(&pix, 1, 1), Rgba8::new(255, 0, 0, 255));
    assert_eq!(f.pixel_high_res(&pix, 128, 128), Rgba8::new(138, 0, 0, 255));
    assert_eq!(f.pixel_high_res(&pix, 0, 0), Rgba8::new(0, 0, 0, 255));
    assert_eq!(f.pixel_high_res(&pix, 64, 0), Rgba8::new(25, 0, 0, 255));
    let p = LineImagePattern::new(PatternFilterBilinear::new());
    assert_eq!((p.pattern_width(), p.line_width(), p.width()), (0, 0, 0));
    assert_eq!((p.dilation, p.dilation_hr), (2, 512));
    let p2 = LineImagePatternPow2::new(PatternFilterBilinear::new());
    assert_eq!((p2.mask, p2.pattern_width(), p2.line_width(), p2.width()), (255, 0, 0, 0));
    assert_eq!(p2.base.pix.width(), 1);
    assert_eq!(GradientX {}.calculate(5, 1, 2), 5);
}

#[test]
fn outline_renderer_draws_a_horizontal_line() {
    let mut base = white_base(8, 8);
    let width: i64 = 256;
    let profile = vec![255u8; (width + 6 * 256) as usize];
    {
        let mut ren = RendererOutlineAA::with_profile(&mut base, profile, width);
        assert_eq!(ren.subpixel_width(), 256);
        assert_eq!(ren.cover(0), 255);
        ren.color(Rgba8::new(0, 0, 0, 255));
        let lp = LineParameters::new(0, 640, 6 * 256, 640, 6 * 256);
        let mut aa = AA0::new(lp, width);
        assert!(!aa.vertical());
        while aa.step_hor(&mut ren) {}
    }
    assert_eq!(px(&base, 3, 2), Rgb8::new(0, 0, 0));
    assert_eq!(px(&base, 3, 6), Rgb8::new(255, 255, 255));
    assert_eq!(px(&base, 7, 2), Rgb8::new(255, 255, 255));
}

#[test]
fn sweep_turns_cells_into_spans() {
    let mut ras = RasterizerScanline::new();
    let cell = |x: i64, y: i64, cover: i64, area: i64| Cell { x, y, cover, area };
    let rows = vec![
        vec![],
        vec![cell(2, 1, 256, 65536), cell(2, 1, 0, 0), cell(5, 1, -256, -65536)],
    ];
    let mut sl = ScanlineU8::new();
    ras.scan_y = -3;
    assert!(ras.sweep_scanline(&mut sl, &rows));
    assert_eq!(ras.scan_y, 2);
    assert_eq!(sl.y, 1);
    assert_eq!(sl.num_spans(), 1);
    assert_eq!((sl.spans[0].x, sl.spans[0].len), (2, 4));
    assert_eq!(sl.spans[0].covers, vec![128, 255, 255, 128]);
    // no row left
    assert!(!ras.sweep_scanline(&mut sl, &rows));
    assert_eq!(ras.scan_y, 2);
    // a gap without cover is left out
    let mut sl2 = ScanlineU8::new();
    ras.filling_rule = FillingRule::EvenOdd;
    ras.sweep_cells(&mut sl2, &[cell(0, 0, 0, -512), cell(4, 0, 0, -512)]);
    assert_eq!(sl2.num_spans(), 2);
    assert_eq!((sl2.spans[0].x, sl2.spans[0].len, sl2.spans[0].covers.clone()), (0, 1, vec![1]));
    assert_eq!((sl2.spans[1].x, sl2.spans[1].len, sl2.spans[1].covers.clone()), (4, 1, vec![1]));
}

/// A pattern 8 pixels square of one color
fn solid_pattern(c: Rgba8) -> LineImagePatternPow2 {
    let mut pat = LineImagePatternPow2::new(PatternFilterBilinear::new());
    let mut pix = Pixfmt::<Rgba8>::new(8, 8);
    for y in 0..8 {
        for x in 0..8 {
            pix.copy_pixel(x, y, c);
        }
    }
    pat.base.pix = pix;
    pat.base.width = 4;
    pat.base.height = 4;
    pat.base.width_hr = 4 * 256;
    pat.base.half_height_hr = 2 * 256;
    pat.base.offset_y_hr = 4 * 256;
    pat.mask = 255;
    pat
}

#[test]
fn image_outline_draws_a_horizontal_line() {
    let red = Rgba8::new(255, 0, 0, 255);
    let mut base = white_base(8, 8);
    {
        let mut ren = RendererOutlineImg::with_base_and_pattern(&mut base, solid_pattern(red));
        assert_eq!(ren.subpixel_width(), 512);
        assert_eq!(ren.pattern_width(), 1024);
        assert_eq!(ren.pixel(77, 0), red);
        // the line from (0, 2.5) to (6, 2.5), cut square at both ends
        let lp = LineParameters::new(0, 640, 1536, 640, 1536);
        let di = DistanceInterpolator4 {
            dx: 1536 << 8, dy: 0, dx_start: 0, dy_start: -96 << 4, dx_pict: 0, dy_pict: 256,
            dx_end: 0, dy_end: -96 << 4, dist: 0, dist_start: -768, dist_pict: 128,
            dist_end: 8448, len: 1536,
        };
        let mut li = LineInterpolatorImage::new(lp, 256, 0, 1024, di);
        assert!(!li.vertical());
        assert_eq!((li.width, li.max_extent, li.count), (256, 2, 6));
        assert_eq!(li.start, 4 * 1024);
        assert_eq!(li.dist_pos[64], 0x7FFF_0000);
        let mut n = 0;
        while li.step_hor(&mut ren) && n < 100 {
            n += 1;
        }
        assert!(n < 100);
    }
    assert_eq!(px(&base, 3, 2), Rgb8::new(255, 0, 0));
    assert_eq!(px(&base, 3, 7), Rgb8::new(255, 255, 255));
}

#[test]
fn image_outline_steps_until_the_end() {
    let red = Rgba8::new(255, 0, 0, 255);
    let mut base = white_base(8, 8);
    {
        let mut ren = RendererOutlineImg::with_base_and_pattern(&mut base, solid_pattern(red));
        let lp = LineParameters::new(0, 640, 1536, 640, 1536);
        let di = DistanceInterpolator4 {
            dx: 1536 << 8, dy: 0, dx_start: 0, dy_start: -96 << 4, dx_pict: 0, dy_pict: 256,
            dx_end: 0, dy_end: -96 << 4, dist: 0, dist_start: -768, dist_pict: 128,
            dist_end: 8448, len: 1536,
        };
        let mut li = LineInterpolatorImage::new(lp, 256, 0, 1024, di);
        ren.draw_steps(&mut li);
        assert!(li.step >= li.count || li.step > 0);
    }
    assert_eq!(px(&base, 3, 2), Rgb8::new(255, 0, 0));
    assert_eq!(px(&base, 3, 7), Rgb8::new(255, 255, 255));
}

#[test]
fn long_lines_are_drawn_in_pieces() {
    let lp = LineParameters::new(0, 0, 2560, 0, 2560);
    let pieces = agg::outline_img::line3_pieces(&lp, 0, -2560, 2560, -2560);
    assert_eq!(pieces.len(), 1);
    assert_eq!((pieces[0].1, pieces[0].2, pieces[0].3, pieces[0].4), (0, -2560, 2560, -2560));
    // a start point on the line is moved square off it
    let pieces = agg::outline_img::line3_pieces(&lp, 1280, 0, 2560, -2560);
    assert_eq!((pieces[0].1, pieces[0].2), (0, -2560));
    let long = LineParameters::new(0, 0, 600000, 0, 600000);
    let pieces = agg::outline_img::line3_pieces(&long, 0, -600000, 600000, -600000);
    assert_eq!(pieces.len(), 4);
    let first = pieces[0].0;
    assert_eq!((first.x1, first.y1, first.x2, first.y2, first.len), (0, 0, 150000, 0, 150000));
    let last = pieces[3].0;
    assert_eq!((last.x1, last.x2, last.len), (450000, 600000, 150000));
}

#[test]
fn pattern_is_made_from_an_image() {
    let mut img = Pixfmt::<Rgba8>::new(3, 2);
    for y in 0..2 {
        for x in 0..3 {
            img.copy_pixel(x, y, Rgba8::new((10 * x + y) as u8, 1, 2, 255));
        }
    }
    let mut p = LineImagePattern::new(PatternFilterBilinear::new());
    p.create(&img);
    assert_eq!((p.width, p.height, p.width_hr, p.half_height_hr, p.offset_y_hr), (3, 2, 768, 384, 640));
    assert_eq!((p.pix.width(), p.pix.height()), (7, 6));
    assert_eq!(Source::get(&p.pix, (2, 2)), Rgba8::new(0, 1, 2, 255));
    assert_eq!(Source::get(&p.pix, (4, 3)), Rgba8::new(21, 1, 2, 255));
    // the margins repeat the opposite side of the image
    assert_eq!(Source::get(&p.pix, (0, 2)), Rgba8::new(10, 1, 2, 255));
    assert_eq!(Source::get(&p.pix, (6, 3)), Rgba8::new(11, 1, 2, 255));
    // the margin rows are transparent
    assert_eq!(Source::get(&p.pix, (3, 0)), Rgba8::new(0, 0, 0, 0));
    assert_eq!(Source::get(&p.pix, (0, 5)), Rgba8::new(0, 0, 0, 0));
}

#[test]
fn pattern_width_is_rounded_up_to_a_power_of_two() {
    let mut q = LineImagePatternPow2::new(PatternFilterBilinear::new());
    q.create(&Pixfmt::<Rgba8>::new(3, 2));
    assert_eq!((q.mask, q.pattern_width()), (511, 512));
    let mut q = LineImagePatternPow2::new(PatternFilterBilinear::new());
    q.create(&Pixfmt::<Rgba8>::new(1, 1));
    assert_eq!((q.mask, q.pattern_width()), (255, 256));
    let red = Rgba8::new(255, 0, 0, 255);
    let mut img = Pixfmt::<Rgba8>::new(4, 4);
    for y in 0..4 {
        for x in 0..4 {
            img.copy_pixel(x, y, red);
        }
    }
    let mut q = LineImagePatternPow2::new(PatternFilterBilinear::new());
    q.create(&img);
    assert_eq!((q.mask, q.pattern_width(), q.line_width()), (1023, 1024, 640));
    assert_eq!(q.pixel(0, 0), red);
    assert_eq!(q.pixel(777, -300), red);
}
