use agg::color::{Rgb8, Rgba8, Rgba8pre};
use agg::pixfmt::{Pixfmt, PixelDraw};
use agg::{Pixel, Source};

#[test]
fn pixfmt_test() {
    let mut p = Pixfmt::<Rgb8>::new(10, 10);
    assert_eq!(p.rbuf.data.len(), 300);
    p.copy_pixel(0, 0, Rgb8::black());
}

#[test]
fn copy_or_blend_pix_with_cover_examples() {
    let mut pix = Pixfmt::<Rgb8>::new(1, 1);
    let black = Rgba8::black();
    let white = Rgba8::white();
    pix.copy_pixel(0, 0, black);
    assert_eq!(Source::get(&pix, (0, 0)), black);

    let (alpha, cover) = (255, 255); // Copy Pixel
    let color = Rgba8::new(255, 255, 255, alpha);
    pix.copy_or_blend_pix_with_cover((0, 0), color, cover);
    assert_eq!(Source::get(&pix, (0, 0)), white);

    let (alpha, cover) = (255, 128); // Partial Coverage, Blend
    let color = Rgba8::new(255, 255, 255, alpha);
    pix.copy_pixel(0, 0, black);
    pix.copy_or_blend_pix_with_cover((0, 0), color, cover);
    assert_eq!(Source::get(&pix, (0, 0)), Rgba8::new(128, 128, 128, 255));

    let (alpha, cover) = (128, 255); // Partial Coverage, Blend
    let color = Rgba8::new(255, 255, 255, alpha);
    pix.copy_pixel(0, 0, black);
    pix.copy_or_blend_pix_with_cover((0, 0), color, cover);
    assert_eq!(Source::get(&pix, (0, 0)), Rgba8::new(128, 128, 128, 255));
}

#[test]
fn fill_and_hline_rgba8() {
    let mut pix = Pixfmt::<Rgba8>::new(4, 3);
    assert_eq!(pix.len(), 48);
    pix.fill(Rgba8::new(1, 2, 3, 4));
    assert!(pix.as_bytes().chunks(4).all(|c| c == [1, 2, 3, 4]));
    // an opaque color at full cover is copied along the row
    pix.blend_hline(1, 2, 2, Rgba8::new(9, 8, 7, 255), 255);
    assert_eq!(Source::get(&pix, (0, 2)), Rgba8::new(1, 2, 3, 4));
    assert_eq!(Source::get(&pix, (1, 2)), Rgba8::new(9, 8, 7, 255));
    assert_eq!(Source::get(&pix, (2, 2)), Rgba8::new(9, 8, 7, 255));
    assert_eq!(Source::get(&pix, (3, 2)), Rgba8::new(1, 2, 3, 4));
    // a transparent color leaves the image alone
    pix.blend_vline(0, 0, 3, Rgba8::new(200, 200, 200, 0), 255);
    assert_eq!(Source::get(&pix, (0, 1)), Rgba8::new(1, 2, 3, 4));
    // a half cover of an opaque color blends halfway, alpha included
    pix.blend_pix((3, 0), Rgba8::new(255, 255, 255, 255), 128);
    assert_eq!(Source::get(&pix, (3, 0)), Rgba8::new(128, 129, 129, 66));
}

#[test]
fn solid_spans_rgb8() {
    let mut pix = Pixfmt::<Rgb8>::new(3, 3);
    pix.fill(Rgb8::white());
    pix.blend_solid_hspan(0, 1, 3, Rgba8::black(), &[255, 0, 51]);
    assert_eq!(pix.get((0, 1)), Rgb8::black());
    assert_eq!(pix.get((1, 1)), Rgb8::white());
    assert_eq!(pix.get((2, 1)), Rgb8::gray(204));
    pix.blend_solid_vspan(2, 0, 2, Rgba8::black(), &[255, 255]);
    assert_eq!(pix.get((2, 0)), Rgb8::black());
    assert_eq!(pix.get((2, 1)), Rgb8::black());
    assert_eq!(pix.get((2, 2)), Rgb8::white());
}

#[test]
fn color_spans_premultiplied() {
    let mut pix = Pixfmt::<Rgba8pre>::new(2, 2);
    pix.fill(Rgba8pre::new(0, 0, 0, 0));
    let colors = [Rgba8pre::new(10, 20, 30, 255), Rgba8pre::new(50, 50, 50, 128)];
    pix.blend_color_hspan(0, 0, 2, &colors, &[], 255);
    assert_eq!(Source::get(&pix, (0, 0)), Rgba8::new(10, 20, 30, 255));
    // over a cleared pixel the premultiplied color is kept as it is
    assert_eq!(Source::get(&pix, (1, 0)), Rgba8::new(50, 50, 50, 128));
    pix.blend_color_vspan(1, 0, 2, &colors, &[255, 0], 0);
    assert_eq!(Source::get(&pix, (1, 0)), Rgba8::new(10, 20, 30, 255));
    assert_eq!(Source::get(&pix, (1, 1)), Rgba8::new(0, 0, 0, 0));
    pix.clear();
    assert!(pix.as_bytes().iter().all(|&b| b == 255));
    assert_eq!(pix.width(), 2);
    assert_eq!(pix.height(), 2);
}

#[test]
fn t02_pixel_formats() {
    let mut pix = Pixfmt::<Rgb8>::new(320, 220);
    pix.clear();
    let (w, h) = (pix.width(), pix.height());
    let black = Rgb8::black();
    for i in 0..h {
        pix.copy_pixel(0, i, black);
        pix.copy_pixel(w - 1, i, black);
    }
    for &k in [0, h - 1].iter() {
        for i in 0..w {
            pix.copy_pixel(i, k, black);
        }
    }
    for i in 0..pix.height() / 2 {
        let c = Rgb8::new(127, 200, 98);
        pix.copy_pixel(i, i, c);
    }
    let c = Rgb8::new(127, 200, 98);
    for i in 0..110 {
        assert_eq!(pix.get((i, i)), c);
    }
    assert_eq!(pix.get((0, 150)), black);
    assert_eq!(pix.get((319, 150)), black);
    assert_eq!(pix.get((200, 0)), black);
    assert_eq!(pix.get((200, 219)), black);
    assert_eq!(pix.get((200, 100)), Rgb8::white());
    assert_eq!(pix.get((110, 110)), Rgb8::white());
}

#[test]
fn aliased_line_steps_along_its_major_axis() {
    let mut pix = Pixfmt::<Rgb8>::new(8, 8);
    let red = Rgb8::new(255, 0, 0);
    pix.line_sp_pixels(1, 1, 5, 3, red);
    let drawn: Vec<(usize, usize)> = (0..8usize)
        .flat_map(|y| (0..8usize).map(move |x| (x, y)))
        .filter(|&(x, y)| pix.get((x, y)) == red)
        .collect();
    assert_eq!(drawn, vec![(1, 1), (2, 1), (3, 2), (4, 2)]);
    let mut pix = Pixfmt::<Rgb8>::new(8, 8);
    pix.line_sp_pixels(6, 7, 5, 1, red);
    let drawn: Vec<(usize, usize)> = (0..8usize)
        .flat_map(|y| (0..8usize).map(move |x| (x, y)))
        .filter(|&(x, y)| pix.get((x, y)) == red)
        .collect();
    assert_eq!(drawn.len(), 6);
    assert_eq!(drawn[0], (5, 1));
}
