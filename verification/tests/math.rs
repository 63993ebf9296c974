use agg::math::{lerp_u8, multiply_u8, prelerp_u8};

fn mu864(i: u8, j: u8) -> u8 {
    let i = i as f64 / 255.0;
    let j = j as f64 / 255.0;
    let c = i * j;
    (c * 255.0).round() as u8
}

fn lerp_u8_f64(p: u8, q: u8, a: u8) -> u8 {
    let p = p as f64 / 255.0;
    let q = q as f64 / 255.0;
    let a = a as f64 / 255.0;
    let v = a * (q - p) + p;
    (v * 255.0).round() as u8
}

fn prelerp_u8_f64(p: u8, q: u8, a: u8) -> u8 {
    let p = p as f64 / 255.0;
    let q = q as f64 / 255.0;
    let a = a as f64 / 255.0;
    let v = p + q - a * p;
    (v * 255.0).round() as u8
}

#[test]
fn lerp_u8_test() {
    for p in 0..=255 {
        for q in 0..=255 {
            for a in 0..=255 {
                let (p, q, a) = (p as u8, q as u8, a as u8);
                let v = lerp_u8_f64(p, q, a);
                assert_eq!(lerp_u8(p, q, a), v, "lerp({},{},{}) = {}", p, q, a, v);
            }
        }
    }
}

#[test]
fn perlerp_u8_test() {
    for p in 0..=255 {
        for q in 0..=255 {
            for a in 0..=255 {
                let (p, q, a) = (p as u8, q as u8, a as u8);
                let v = prelerp_u8_f64(p, q, a);
                assert_eq!(prelerp_u8(p, q, a), v, "prelerp({},{},{}) = {}", p, q, a, v);
            }
        }
    }
}

#[test]
fn multiply_u8_test() {
    for i in 0..=255 {
        for j in 0..=255 {
            let v = mu864(i, j);
            assert_eq!(multiply_u8(i, j), v, "{} * {} = {}", i, j, v);
        }
    }
}

#[test]
fn lerp_ends_and_multiply_identity() {
    for p in 0..=255u8 {
        for q in 0..=255u8 {
            assert_eq!(lerp_u8(p, q, 0), p);
            assert_eq!(lerp_u8(p, q, 255), q);
        }
        assert_eq!(multiply_u8(p, 255), p);
        assert_eq!(multiply_u8(p, 0), 0);
    }
    assert_eq!(multiply_u8(128, 128), 64);
    assert_eq!(lerp_u8(0, 255, 128), 128);
    assert_eq!(prelerp_u8(200, 200, 100), 255);
}
