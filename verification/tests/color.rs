use agg::color::{Gray8, Rgb8, Rgba8, Rgba8pre};

#[test]
fn rgb8_test() {
    let w = Rgb8::white();
    assert_eq!(w, Rgb8 { r: 255, g: 255, b: 255 });
    let w = Rgb8::black();
    assert_eq!(w, Rgb8 { r: 0, g: 0, b: 0 });
    let w = Rgb8::gray(128);
    assert_eq!(w, Rgb8 { r: 128, g: 128, b: 128 });
    let w = Rgb8::from_slice(&[1, 2, 3]);
    assert_eq!(w, Rgb8 { r: 1, g: 2, b: 3 });
    let w = Rgb8::new(0, 90, 180);
    assert_eq!(w, Rgb8 { r: 0, g: 90, b: 180 });
}

#[test]
fn gray_test() {
    let g = Gray8::new(34);
    assert_eq!(g, Gray8 { value: 34, alpha: 255 });
    let g = Gray8::new_with_alpha(134, 100);
    assert_eq!(g, Gray8 { value: 134, alpha: 100 });
    let g = Gray8::from_slice(&[10, 20]);
    assert_eq!(g, Gray8 { value: 10, alpha: 20 });
}

#[test]
fn rgba8_test() {
    let c = Rgba8::white();
    assert_eq!(c, Rgba8 { r: 255, g: 255, b: 255, a: 255 });
    let c = Rgba8::black();
    assert_eq!(c, Rgba8 { r: 0, g: 0, b: 0, a: 255 });
    let c = Rgba8::new(255, 90, 84, 72);
    assert_eq!(c, Rgba8 { r: 255, g: 90, b: 84, a: 72 });
    let mut c = c;
    c.clear();
    assert_eq!(c, Rgba8 { r: 0, g: 0, b: 0, a: 0 });
    let c = Rgba8::new(255, 255, 255, 128);
    let p = c.premultiply();
    assert_eq!(p, Rgba8pre { r: 128, g: 128, b: 128, a: 128 })
}

#[test]
fn premultiply_keeps_opaque_and_clears_transparent() {
    let c = Rgba8::new(12, 200, 77, 255);
    assert_eq!(c.premultiply(), Rgba8pre { r: 12, g: 200, b: 77, a: 255 });
    let c = Rgba8::new(12, 200, 77, 0);
    assert_eq!(c.premultiply(), Rgba8pre { r: 0, g: 0, b: 0, a: 0 });
    // 100 * 51 / 255 = 20, 200 * 51 / 255 = 40
    let c = Rgba8::new(100, 200, 255, 51);
    assert_eq!(c.premultiply(), Rgba8pre { r: 20, g: 40, b: 51, a: 51 });
}
