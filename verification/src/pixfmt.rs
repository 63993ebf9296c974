//! Pixel Format

use vstd::prelude::*;
use std::marker::PhantomData;
use crate::buffer::RenderingBuffer;
use crate::color::{Rgba8, Rgb8, Rgba8pre};
use crate::math::{multiply_u8, lerp_u8, prelerp_u8, mul_div255, lerp_spec, prelerp_spec};
use crate::{Color, Pixel};

verus! {

/// An image whose pixels are stored as colors of type `T`
#[derive(Debug)]
pub struct Pixfmt<T> {
    pub rbuf: RenderingBuffer,
    pub phantom: PhantomData<T>,
}

impl Pixel for Pixfmt<Rgba8> {
    open spec fn wf(&self) -> bool {
        self.rbuf.wf() && self.rbuf.bpp == 4
    }

    open spec fn bpp_spec() -> nat {
        4
    }

    open spec fn width_spec(&self) -> nat {
        self.rbuf.width as nat
    }

    open spec fn height_spec(&self) -> nat {
        self.rbuf.height as nat
    }

    open spec fn bytes(&self) -> Seq<u8> {
        self.rbuf.data@
    }

    open spec fn encode(c: (u8, u8, u8, u8)) -> Seq<u8> {
        seq![c.0, c.1, c.2, c.3]
    }

    /// Each color component moves toward the color by its alpha times the
    /// cover; the alpha moves toward that product by itself
    open spec fn blend_bytes(px: Seq<u8>, c: (u8, u8, u8, u8), cover: u64) -> Seq<u8> {
        let alpha = mul_div255(c.3 as int, (cover as u8) as int);
        seq![
            lerp_spec(px[0] as int, c.0 as int, alpha) as u8,
            lerp_spec(px[1] as int, c.1 as int, alpha) as u8,
            lerp_spec(px[2] as int, c.2 as int, alpha) as u8,
            lerp_spec(px[3] as int, alpha, alpha) as u8
        ]
    }

    proof fn lemma_layout(&self) {
    }

    proof fn lemma_encode_len(c: (u8, u8, u8, u8)) {
    }

    proof fn lemma_blend_len(px: Seq<u8>, c: (u8, u8, u8, u8), cover: u64) {
    }

    fn cover_mask() -> (r: u64) {
        255
    }

    fn bpp() -> (r: usize) {
        4
    }

    fn as_bytes(&self) -> (r: &[u8]) {
        self.rbuf.data.as_slice()
    }

    fn width(&self) -> (r: usize) {
        self.rbuf.width
    }

    fn height(&self) -> (r: usize) {
        self.rbuf.height
    }

    fn set<C: Color>(&mut self, id: (usize, usize), c: C) {
        let r = c.red8();
        let g = c.green8();
        let b = c.blue8();
        let a = c.alpha8();
        let ghost d0 = self.rbuf.data@;
        let ghost off = self.rbuf.offset(id.0 as int, id.1 as int);
        proof {
            crate::buffer::lemma_pixel_offset(id.0 as int, id.1 as int, self.rbuf.width as int,
                self.rbuf.height as int, 4);
        }
        self.rbuf.set_component(id, 0, r);
        self.rbuf.set_component(id, 1, g);
        self.rbuf.set_component(id, 2, b);
        self.rbuf.set_component(id, 3, a);
        assert(self.rbuf.data@ =~= crate::buffer::put(d0, off, Self::encode(c.rgba())));
    }

    fn blend_pix<C: Color>(&mut self, id: (usize, usize), c: C, cover: u64) {
        let alpha = multiply_u8(c.alpha8(), cover as u8);
        let pix0 = self.get_rgba8(id);
        let r = lerp_u8(pix0.r, c.red8(), alpha);
        let g = lerp_u8(pix0.g, c.green8(), alpha);
        let b = lerp_u8(pix0.b, c.blue8(), alpha);
        let a = lerp_u8(pix0.a, alpha, alpha);
        let ghost d0 = self.rbuf.data@;
        let ghost off = self.rbuf.offset(id.0 as int, id.1 as int);
        proof {
            crate::buffer::lemma_pixel_offset(id.0 as int, id.1 as int, self.rbuf.width as int,
                self.rbuf.height as int, 4);
        }
        self.rbuf.set_component(id, 0, r);
        self.rbuf.set_component(id, 1, g);
        self.rbuf.set_component(id, 2, b);
        self.rbuf.set_component(id, 3, a);
        assert(self.rbuf.data@ =~= crate::buffer::put(d0, off,
            Self::blend_bytes(crate::buffer::pixel_of(d0, self.rbuf.width as int, 4,
                id.0 as int, id.1 as int), c.rgba(), cover)));
    }
}

impl Pixfmt<Rgba8> {
    /// The color of pixel `id`
    fn get_rgba8(&self, id: (usize, usize)) -> (c: Rgba8)
        requires
            self.wf(),
            id.0 < self.rbuf.width,
            id.1 < self.rbuf.height,
        ensures
            self.rbuf.pixel_at(id.0 as int, id.1 as int) == seq![c.r, c.g, c.b, c.a],
    {
        let p = self.rbuf.pixel(id);
        proof {
            crate::buffer::lemma_pixel_offset(id.0 as int, id.1 as int, self.rbuf.width as int,
                self.rbuf.height as int, 4);
        }
        let c = Rgba8::new(p[0], p[1], p[2], p[3]);
        assert(self.rbuf.pixel_at(id.0 as int, id.1 as int) =~= seq![c.r, c.g, c.b, c.a]);
        c
    }
}

impl Pixel for Pixfmt<Rgb8> {
    open spec fn wf(&self) -> bool {
        self.rbuf.wf() && self.rbuf.bpp == 3
    }

    open spec fn bpp_spec() -> nat {
        3
    }

    open spec fn width_spec(&self) -> nat {
        self.rbuf.width as nat
    }

    open spec fn height_spec(&self) -> nat {
        self.rbuf.height as nat
    }

    open spec fn bytes(&self) -> Seq<u8> {
        self.rbuf.data@
    }

    open spec fn encode(c: (u8, u8, u8, u8)) -> Seq<u8> {
        seq![c.0, c.1, c.2]
    }

    /// Each component moves toward the color by its alpha times the cover
    open spec fn blend_bytes(px: Seq<u8>, c: (u8, u8, u8, u8), cover: u64) -> Seq<u8> {
        let alpha = mul_div255(c.3 as int, (cover as u8) as int);
        seq![
            lerp_spec(px[0] as int, c.0 as int, alpha) as u8,
            lerp_spec(px[1] as int, c.1 as int, alpha) as u8,
            lerp_spec(px[2] as int, c.2 as int, alpha) as u8
        ]
    }

    proof fn lemma_layout(&self) {
    }

    proof fn lemma_encode_len(c: (u8, u8, u8, u8)) {
    }

    proof fn lemma_blend_len(px: Seq<u8>, c: (u8, u8, u8, u8), cover: u64) {
    }

    fn cover_mask() -> (r: u64) {
        255
    }

    fn bpp() -> (r: usize) {
        3
    }

    fn as_bytes(&self) -> (r: &[u8]) {
        self.rbuf.data.as_slice()
    }

    fn width(&self) -> (r: usize) {
        self.rbuf.width
    }

    fn height(&self) -> (r: usize) {
        self.rbuf.height
    }

    fn set<C: Color>(&mut self, id: (usize, usize), c: C) {
        let r = c.red8();
        let g = c.green8();
        let b = c.blue8();
        let ghost d0 = self.rbuf.data@;
        let ghost off = self.rbuf.offset(id.0 as int, id.1 as int);
        proof {
            crate::buffer::lemma_pixel_offset(id.0 as int, id.1 as int, self.rbuf.width as int,
                self.rbuf.height as int, 3);
        }
        self.rbuf.set_component(id, 0, r);
        self.rbuf.set_component(id, 1, g);
        self.rbuf.set_component(id, 2, b);
        assert(self.rbuf.data@ =~= crate::buffer::put(d0, off, Self::encode(c.rgba())));
    }

    fn blend_pix<C: Color>(&mut self, id: (usize, usize), c: C, cover: u64) {
        let pix0 = self.get(id);
        let alpha = multiply_u8(c.alpha8(), cover as u8);
        let r = lerp_u8(pix0.r, c.red8(), alpha);
        let g = lerp_u8(pix0.g, c.green8(), alpha);
        let b = lerp_u8(pix0.b, c.blue8(), alpha);
        let ghost d0 = self.rbuf.data@;
        let ghost off = self.rbuf.offset(id.0 as int, id.1 as int);
        proof {
            crate::buffer::lemma_pixel_offset(id.0 as int, id.1 as int, self.rbuf.width as int,
                self.rbuf.height as int, 3);
        }
        self.rbuf.set_component(id, 0, r);
        self.rbuf.set_component(id, 1, g);
        self.rbuf.set_component(id, 2, b);
        assert(self.rbuf.data@ =~= crate::buffer::put(d0, off,
            Self::blend_bytes(crate::buffer::pixel_of(d0, self.rbuf.width as int, 3,
                id.0 as int, id.1 as int), c.rgba(), cover)));
    }
}

impl Pixfmt<Rgb8> {
    /// The color of pixel `id`
    pub fn get(&self, id: (usize, usize)) -> (c: Rgb8)
        requires
            self.wf(),
            id.0 < self.rbuf.width,
            id.1 < self.rbuf.height,
        ensures
            self.rbuf.pixel_at(id.0 as int, id.1 as int) == seq![c.r, c.g, c.b],
    {
        let p = self.rbuf.pixel(id);
        proof {
            crate::buffer::lemma_pixel_offset(id.0 as int, id.1 as int, self.rbuf.width as int,
                self.rbuf.height as int, 3);
        }
        let c = Rgb8::new(p[0], p[1], p[2]);
        assert(self.rbuf.pixel_at(id.0 as int, id.1 as int) =~= seq![c.r, c.g, c.b]);
        c
    }
}

/// A component of a premultiplied color scaled by a cover short of full
pub open spec fn scale_by_cover(v: u8, cover: u64) -> int {
    if cover != 255 { mul_div255(v as int, (cover as u8) as int) } else { v as int }
}

impl Pixel for Pixfmt<Rgba8pre> {
    open spec fn wf(&self) -> bool {
        self.rbuf.wf() && self.rbuf.bpp == 4
    }

    open spec fn bpp_spec() -> nat {
        4
    }

    open spec fn width_spec(&self) -> nat {
        self.rbuf.width as nat
    }

    open spec fn height_spec(&self) -> nat {
        self.rbuf.height as nat
    }

    open spec fn bytes(&self) -> Seq<u8> {
        self.rbuf.data@
    }

    open spec fn encode(c: (u8, u8, u8, u8)) -> Seq<u8> {
        seq![c.0, c.1, c.2, c.3]
    }

    /// The premultiplied color, scaled by the cover, is composed over the
    /// pixel
    open spec fn blend_bytes(px: Seq<u8>, c: (u8, u8, u8, u8), cover: u64) -> Seq<u8> {
        let alpha = scale_by_cover(c.3, cover);
        seq![
            prelerp_spec(px[0] as int, scale_by_cover(c.0, cover), alpha) as u8,
            prelerp_spec(px[1] as int, scale_by_cover(c.1, cover), alpha) as u8,
            prelerp_spec(px[2] as int, scale_by_cover(c.2, cover), alpha) as u8,
            prelerp_spec(px[3] as int, alpha, alpha) as u8
        ]
    }

    proof fn lemma_layout(&self) {
    }

    proof fn lemma_encode_len(c: (u8, u8, u8, u8)) {
    }

    proof fn lemma_blend_len(px: Seq<u8>, c: (u8, u8, u8, u8), cover: u64) {
    }

    fn cover_mask() -> (r: u64) {
        255
    }

    fn bpp() -> (r: usize) {
        4
    }

    fn as_bytes(&self) -> (r: &[u8]) {
        self.rbuf.data.as_slice()
    }

    fn width(&self) -> (r: usize) {
        self.rbuf.width
    }

    fn height(&self) -> (r: usize) {
        self.rbuf.height
    }

    fn set<C: Color>(&mut self, id: (usize, usize), c: C) {
        let r = c.red8();
        let g = c.green8();
        let b = c.blue8();
        let a = c.alpha8();
        let ghost d0 = self.rbuf.data@;
        let ghost off = self.rbuf.offset(id.0 as int, id.1 as int);
        proof {
            crate::buffer::lemma_pixel_offset(id.0 as int, id.1 as int, self.rbuf.width as int,
                self.rbuf.height as int, 4);
        }
        self.rbuf.set_component(id, 0, r);
        self.rbuf.set_component(id, 1, g);
        self.rbuf.set_component(id, 2, b);
        self.rbuf.set_component(id, 3, a);
        assert(self.rbuf.data@ =~= crate::buffer::put(d0, off, Self::encode(c.rgba())));
    }

    fn blend_pix<C: Color>(&mut self, id: (usize, usize), c: C, cover: u64) {
        let p0 = self.get_rgba8pre(id);
        let c0 = Rgba8pre::new(c.red8(), c.green8(), c.blue8(), c.alpha8());
        let p = mix_pix_pre(p0, c0, c.alpha8(), cover);
        let ghost d0 = self.rbuf.data@;
        let ghost off = self.rbuf.offset(id.0 as int, id.1 as int);
        proof {
            crate::buffer::lemma_pixel_offset(id.0 as int, id.1 as int, self.rbuf.width as int,
                self.rbuf.height as int, 4);
        }
        self.rbuf.set_component(id, 0, p.r);
        self.rbuf.set_component(id, 1, p.g);
        self.rbuf.set_component(id, 2, p.b);
        self.rbuf.set_component(id, 3, p.a);
        assert(self.rbuf.data@ =~= crate::buffer::put(d0, off,
            Self::blend_bytes(crate::buffer::pixel_of(d0, self.rbuf.width as int, 4,
                id.0 as int, id.1 as int), c.rgba(), cover)));
    }
}

impl Pixfmt<Rgba8pre> {
    /// The stored components of pixel `id`
    fn get_rgba8pre(&self, id: (usize, usize)) -> (c: Rgba8pre)
        requires
            self.wf(),
            id.0 < self.rbuf.width,
            id.1 < self.rbuf.height,
        ensures
            self.rbuf.pixel_at(id.0 as int, id.1 as int) == seq![c.r, c.g, c.b, c.a],
    {
        let p = self.rbuf.pixel(id);
        proof {
            crate::buffer::lemma_pixel_offset(id.0 as int, id.1 as int, self.rbuf.width as int,
                self.rbuf.height as int, 4);
        }
        let c = Rgba8pre::new(p[0], p[1], p[2], p[3]);
        assert(self.rbuf.pixel_at(id.0 as int, id.1 as int) =~= seq![c.r, c.g, c.b, c.a]);
        c
    }
}

/// Compose premultiplied color `c` with alpha `alpha`, scaled by `cover`
/// unless that is full, over pixel `p`
fn mix_pix_pre(p: Rgba8pre, c: Rgba8pre, alpha: u8, cover: u64) -> (r: Rgba8pre)
    ensures
        r.r == prelerp_spec(p.r as int, scale_by_cover(c.r, cover), scale_by_cover(alpha, cover)),
        r.g == prelerp_spec(p.g as int, scale_by_cover(c.g, cover), scale_by_cover(alpha, cover)),
        r.b == prelerp_spec(p.b as int, scale_by_cover(c.b, cover), scale_by_cover(alpha, cover)),
        r.a == prelerp_spec(p.a as int, scale_by_cover(alpha, cover), scale_by_cover(alpha, cover)),
{
    let mut alpha = alpha;
    let (mut red, mut green, mut blue) = (c.r, c.g, c.b);
    if cover != 255 {
        alpha = multiply_u8(alpha, cover as u8);
        red = multiply_u8(red, cover as u8);
        green = multiply_u8(green, cover as u8);
        blue = multiply_u8(blue, cover as u8);
    }
    let red = prelerp_u8(p.r, red, alpha);
    let green = prelerp_u8(p.g, green, alpha);
    let blue = prelerp_u8(p.b, blue, alpha);
    let alpha = prelerp_u8(p.a, alpha, alpha);
    Rgba8pre::new(red, green, blue, alpha)
}

} // verus!

verus! {

use crate::{pix, pix_offset, cob, in_span, span_index, span_update, fits_i64};

/// Extending a span update by its next pixel, which is written with `v`
pub proof fn lemma_span_step<P: Pixel>(old0: &P, mid: &P, new: &P, x: int, y: int, i: int,
                                       vertical: bool, f: spec_fn(int, Seq<u8>) -> Seq<u8>,
                                       v: Seq<u8>)
    requires
        span_update(old0, mid, x, y, i, vertical, f),
        old0.wf(),
        i >= 0,
        new.wf(),
        new.width_spec() == mid.width_spec(),
        new.height_spec() == mid.height_spec(),
        ({
            let qx = if vertical { x } else { x + i };
            let qy = if vertical { y + i } else { y };
            &&& 0 <= qx < mid.width_spec()
            &&& 0 <= qy < mid.height_spec()
            &&& new.bytes() == crate::buffer::put(mid.bytes(), pix_offset(mid, qx, qy), v)
            &&& v == f(i, pix(old0, qx, qy))
        }),
        v.len() == P::bpp_spec(),
    ensures
        span_update(old0, new, x, y, i + 1, vertical, f),
{
    let qx = if vertical { x } else { x + i };
    let qy = if vertical { y + i } else { y };
    mid.lemma_layout();
    assert forall|px: int, py: int| 0 <= px < old0.width_spec() && 0 <= py < old0.height_spec()
        implies #[trigger] pix(new, px, py) == (if in_span(px, py, x, y, i + 1, vertical) {
            f(span_index(px, py, x, y, vertical), pix(old0, px, py))
        } else {
            pix(old0, px, py)
        }) by {
        crate::buffer::lemma_put_pixel(mid.bytes(), mid.width_spec() as int, mid.height_spec() as int,
            P::bpp_spec() as int, qx, qy, v, px, py);
        assert(pix(mid, px, py) == (if in_span(px, py, x, y, i, vertical) {
            f(span_index(px, py, x, y, vertical), pix(old0, px, py))
        } else {
            pix(old0, px, py)
        }));
    }
}

/// Extending a span update by its next pixel, which keeps its bytes
pub proof fn lemma_span_skip<P: Pixel>(old0: &P, mid: &P, x: int, y: int, i: int,
                                       vertical: bool, f: spec_fn(int, Seq<u8>) -> Seq<u8>)
    requires
        span_update(old0, mid, x, y, i, vertical, f),
        ({
            let qx = if vertical { x } else { x + i };
            let qy = if vertical { y + i } else { y };
            (0 <= qx < old0.width_spec() && 0 <= qy < old0.height_spec())
                ==> f(i, pix(old0, qx, qy)) == pix(old0, qx, qy)
        }),
    ensures
        span_update(old0, mid, x, y, i + 1, vertical, f),
{
    assert forall|px: int, py: int| 0 <= px < old0.width_spec() && 0 <= py < old0.height_spec()
        implies #[trigger] pix(mid, px, py) == (if in_span(px, py, x, y, i + 1, vertical) {
            f(span_index(px, py, x, y, vertical), pix(old0, px, py))
        } else {
            pix(old0, px, py)
        }) by {
        assert(pix(mid, px, py) == (if in_span(px, py, x, y, i, vertical) {
            f(span_index(px, py, x, y, vertical), pix(old0, px, py))
        } else {
            pix(old0, px, py)
        }));
    }
}

/// Extending a span update by a one-pixel update of its next pixel
pub proof fn lemma_span_compose<P: Pixel>(old0: &P, mid: &P, new: &P, x: int, y: int, i: int,
                                          vertical: bool, f: spec_fn(int, Seq<u8>) -> Seq<u8>,
                                          inner_vertical: bool, g: spec_fn(int, Seq<u8>) -> Seq<u8>)
    requires
        span_update(old0, mid, x, y, i, vertical, f),
        i >= 0,
        ({
            let qx = if vertical { x } else { x + i };
            let qy = if vertical { y + i } else { y };
            &&& span_update(mid, new, qx, qy, 1, inner_vertical, g)
            &&& (0 <= qx < old0.width_spec() && 0 <= qy < old0.height_spec())
                ==> g(0, pix(old0, qx, qy)) == f(i, pix(old0, qx, qy))
        }),
    ensures
        span_update(old0, new, x, y, i + 1, vertical, f),
{
    let qx = if vertical { x } else { x + i };
    let qy = if vertical { y + i } else { y };
    assert forall|px: int, py: int| 0 <= px < old0.width_spec() && 0 <= py < old0.height_spec()
        implies #[trigger] pix(new, px, py) == (if in_span(px, py, x, y, i + 1, vertical) {
            f(span_index(px, py, x, y, vertical), pix(old0, px, py))
        } else {
            pix(old0, px, py)
        }) by {
        assert(pix(mid, px, py) == (if in_span(px, py, x, y, i, vertical) {
            f(span_index(px, py, x, y, vertical), pix(old0, px, py))
        } else {
            pix(old0, px, py)
        }));
        assert(pix(new, px, py) == (if in_span(px, py, qx, qy, 1, inner_vertical) {
            g(span_index(px, py, qx, qy, inner_vertical), pix(mid, px, py))
        } else {
            pix(mid, px, py)
        }));
    }
}

/// An empty span update leaves the image as it is
pub proof fn lemma_span_empty<P: Pixel>(p: &P, x: int, y: int, vertical: bool,
                                        f: spec_fn(int, Seq<u8>) -> Seq<u8>)
    requires
        p.wf(),
    ensures
        span_update(p, p, x, y, 0, vertical, f),
{
}

} // verus!

verus! {

/// Copying and blending colors into the pixels of an image
pub trait PixelDraw: Pixel {
    /// Copy or blend a pixel at `id` with `color`
    ///
    /// If `color` is opaque, the color is copied directly to the pixel,
    ///   otherwise the color is blended with the pixel at `id`
    ///
    /// If `color` is transparent nothing is done
    fn copy_or_blend_pix<C: Color>(&mut self, id: (usize, usize), color: C)
        requires
            old(self).wf(),
            color.rgba().3 != 0 ==> id.0 < old(self).width_spec() && id.1 < old(self).height_spec(),
        ensures
            span_update(old(self), final(self), id.0 as int, id.1 as int, 1, false,
                |i: int, px: Seq<u8>| cob::<Self, C>(px, color, 255)),
    ;

    /// Copy or blend a pixel at `id` with `color` and a `cover`
    ///
    /// If `color` is opaque *and* `cover` equals the cover mask then the
    ///   color is copied to the pixel at `id`, otherwise the `color` is
    ///   blended with the pixel at `id` considering the amount of `cover`
    ///
    /// If `color` is transparent nothing is done
    fn copy_or_blend_pix_with_cover<C: Color>(&mut self, id: (usize, usize), color: C, cover: u64)
        requires
            old(self).wf(),
            color.rgba().3 != 0 ==> id.0 < old(self).width_spec() && id.1 < old(self).height_spec(),
        ensures
            span_update(old(self), final(self), id.0 as int, id.1 as int, 1, false,
                |i: int, px: Seq<u8>| cob::<Self, C>(px, color, cover)),
    ;

    /// Copy or Blend a single `color` from (`x`,`y`) to (`x+len-1`,`y`)
    ///    with `cover`
    fn blend_hline<C: Color>(&mut self, x: i64, y: i64, len: i64, color: C, cover: u64)
        requires
            old(self).wf(),
            color.rgba().3 != 0 ==> {
                &&& 0 <= x && 0 <= y && 0 <= len
                &&& x + len <= old(self).width_spec()
                &&& y < old(self).height_spec()
            },
        ensures
            span_update(old(self), final(self), x as int, y as int, len as int, false,
                |i: int, px: Seq<u8>| cob::<Self, C>(px, color, cover)),
    ;

    /// Copy or Blend a single `color` from (`x`,`y`) to (`x`,`y+len-1`)
    ///    with `cover`
    fn blend_vline<C: Color>(&mut self, x: i64, y: i64, len: i64, color: C, cover: u64)
        requires
            old(self).wf(),
            color.rgba().3 != 0 ==> {
                &&& 0 <= x && 0 <= y && 0 <= len
                &&& y + len <= old(self).height_spec()
                &&& x < old(self).width_spec()
            },
        ensures
            span_update(old(self), final(self), x as int, y as int, len as int, true,
                |i: int, px: Seq<u8>| cob::<Self, C>(px, color, cover)),
    ;

    /// Blend a single `color` from (`x`,`y`) to (`x+len-1`,`y`) with collection
    ///   of `covers`
    fn blend_solid_hspan<C: Color>(&mut self, x: i64, y: i64, len: i64, color: C, covers: &[u64])
        requires
            old(self).wf(),
            len == covers@.len(),
            len == 0 || fits_i64(x + len - 1),
            color.rgba().3 != 0 ==> {
                &&& 0 <= x && 0 <= y
                &&& x + len <= old(self).width_spec()
                &&& y < old(self).height_spec()
            },
        ensures
            span_update(old(self), final(self), x as int, y as int, len as int, false,
                |i: int, px: Seq<u8>| cob::<Self, C>(px, color, covers@[i])),
    ;

    /// Blend a single `color` from (`x`,`y`) to (`x`,`y+len-1`) with collection
    ///   of `covers`
    fn blend_solid_vspan<C: Color>(&mut self, x: i64, y: i64, len: i64, color: C, covers: &[u64])
        requires
            old(self).wf(),
            len == covers@.len(),
            len == 0 || fits_i64(y + len - 1),
            color.rgba().3 != 0 ==> {
                &&& 0 <= x && 0 <= y
                &&& y + len <= old(self).height_spec()
                &&& x < old(self).width_spec()
            },
        ensures
            span_update(old(self), final(self), x as int, y as int, len as int, true,
                |i: int, px: Seq<u8>| cob::<Self, C>(px, color, covers@[i])),
    ;

    /// Blend a collection of `colors` from (`x`,`y`) to (`x+len-1`,`y`) with
    ///   either a collection of `covers` or a single `cover`
    ///
    /// A collection of `covers` takes precedance over a single `cover`
    fn blend_color_hspan<C: Color>(&mut self, x: i64, y: i64, len: i64, colors: &[C],
                                   covers: &[u64], cover: u64)
        requires
            old(self).wf(),
            len == colors@.len(),
            covers@.len() != 0 ==> covers@.len() == colors@.len(),
            len > 0 ==> 0 <= x && 0 <= y && x + len <= usize::MAX && y <= usize::MAX,
            forall|i: int| 0 <= i < len && (#[trigger] colors@[i]).rgba().3 != 0 ==>
                x + i < old(self).width_spec() && y < old(self).height_spec(),
        ensures
            span_update(old(self), final(self), x as int, y as int, len as int, false,
                |i: int, px: Seq<u8>| cob::<Self, C>(px, colors@[i],
                    if covers@.len() != 0 { covers@[i] } else { cover })),
    ;

    /// Blend a collection of `colors` from (`x`,`y`) to (`x`,`y+len-1`) with
    ///   either a collection of `covers` or a single `cover`
    ///
    /// A collection of `covers` takes precedance over a single `cover`
    fn blend_color_vspan<C: Color>(&mut self, x: i64, y: i64, len: i64, colors: &[C],
                                   covers: &[u64], cover: u64)
        requires
            old(self).wf(),
            len == colors@.len(),
            covers@.len() != 0 ==> covers@.len() == colors@.len(),
            len > 0 ==> 0 <= x && 0 <= y && y + len <= usize::MAX && x <= usize::MAX,
            forall|i: int| 0 <= i < len && (#[trigger] colors@[i]).rgba().3 != 0 ==>
                y + i < old(self).height_spec() && x < old(self).width_spec(),
        ensures
            span_update(old(self), final(self), x as int, y as int, len as int, true,
                |i: int, px: Seq<u8>| cob::<Self, C>(px, colors@[i],
                    if covers@.len() != 0 { covers@[i] } else { cover })),
    ;

    /// Fill the data with the specified `color`
    fn fill<C: Color>(&mut self, color: C)
        requires
            old(self).wf(),
        ensures
            final(self).wf(),
            final(self).width_spec() == old(self).width_spec(),
            final(self).height_spec() == old(self).height_spec(),
            forall|px: int, py: int| 0 <= px < old(self).width_spec() && 0 <= py < old(self).height_spec()
                ==> #[trigger] pix(final(self), px, py) == Self::encode(color.rgba()),
    ;
}

impl<T: Pixel> PixelDraw for T {
    fn copy_or_blend_pix<C: Color>(&mut self, id: (usize, usize), color: C) {
        let ghost old0 = *self;
        let ghost f = |i: int, px: Seq<u8>| cob::<Self, C>(px, color, 255);
        proof { lemma_span_empty(&old0, id.0 as int, id.1 as int, false, f); }
        if !color.is_transparent() {
            proof {
                self.lemma_layout();
                T::lemma_encode_len(color.rgba());
                T::lemma_blend_len(pix(self, id.0 as int, id.1 as int), color.rgba(), 255);
            }
            if color.is_opaque() {
                self.set(id, color);
            } else {
                self.blend_pix(id, color, 255);
            }
            proof {
                lemma_span_step(&old0, &old0, self, id.0 as int, id.1 as int, 0, false, f,
                    f(0, pix(&old0, id.0 as int, id.1 as int)));
            }
        } else {
            proof { lemma_span_skip(&old0, self, id.0 as int, id.1 as int, 0, false, f); }
        }
    }

    fn copy_or_blend_pix_with_cover<C: Color>(&mut self, id: (usize, usize), color: C, cover: u64) {
        let ghost old0 = *self;
        let ghost f = |i: int, px: Seq<u8>| cob::<Self, C>(px, color, cover);
        proof { lemma_span_empty(&old0, id.0 as int, id.1 as int, false, f); }
        if !color.is_transparent() {
            proof {
                self.lemma_layout();
                T::lemma_encode_len(color.rgba());
                T::lemma_blend_len(pix(self, id.0 as int, id.1 as int), color.rgba(), cover);
            }
            if color.is_opaque() && cover == Self::cover_mask() {
                self.set(id, color);
            } else {
                self.blend_pix(id, color, cover);
            }
            proof {
                lemma_span_step(&old0, &old0, self, id.0 as int, id.1 as int, 0, false, f,
                    f(0, pix(&old0, id.0 as int, id.1 as int)));
            }
        } else {
            proof { lemma_span_skip(&old0, self, id.0 as int, id.1 as int, 0, false, f); }
        }
    }

    fn blend_hline<C: Color>(&mut self, x: i64, y: i64, len: i64, color: C, cover: u64) {
        let ghost old0 = *self;
        let ghost f = |i: int, px: Seq<u8>| cob::<Self, C>(px, color, cover);
        if color.is_transparent() {
            assert forall|px: int, py: int| 0 <= px < old0.width_spec() && 0 <= py < old0.height_spec()
                implies #[trigger] pix(self, px, py) == (if in_span(px, py, x as int, y as int, len as int, false) {
                    f(span_index(px, py, x as int, y as int, false), pix(&old0, px, py))
                } else {
                    pix(&old0, px, py)
                }) by {}
            return;
        }
        proof { self.lemma_layout(); }
        let (ux, uy, ulen) = (x as usize, y as usize, len as usize);
        let full = color.is_opaque() && cover == Self::cover_mask();
        let mut i: usize = 0;
        proof { lemma_span_empty(&old0, x as int, y as int, false, f); }
        while i < ulen
            invariant
                old0.wf(),
                0 <= i <= ulen,
                ux == x && uy == y && ulen == len,
                x + len <= old0.width_spec(),
                y < old0.height_spec(),
                color.rgba().3 != 0,
                full == (color.rgba().3 == 255 && cover == 255),
                f == (|i: int, px: Seq<u8>| cob::<Self, C>(px, color, cover)),
                span_update(&old0, self, x as int, y as int, i as int, false, f),
            decreases ulen - i,
        {
            let ghost mid = *self;
            proof {
                self.lemma_layout();
                T::lemma_encode_len(color.rgba());
                T::lemma_blend_len(pix(self, ux + i, uy as int), color.rgba(), cover);
                assert(pix(&mid, ux + i, uy as int) == pix(&old0, ux + i, uy as int));
            }
            if full {
                self.set((ux + i, uy), color);
            } else {
                self.blend_pix((ux + i, uy), color, cover);
            }
            proof {
                lemma_span_step(&old0, &mid, self, x as int, y as int, i as int, false, f,
                    f(i as int, pix(&old0, ux + i, uy as int)));
            }
            i += 1;
        }
    }

    fn blend_vline<C: Color>(&mut self, x: i64, y: i64, len: i64, color: C, cover: u64) {
        let ghost old0 = *self;
        let ghost f = |i: int, px: Seq<u8>| cob::<Self, C>(px, color, cover);
        if color.is_transparent() {
            assert forall|px: int, py: int| 0 <= px < old0.width_spec() && 0 <= py < old0.height_spec()
                implies #[trigger] pix(self, px, py) == (if in_span(px, py, x as int, y as int, len as int, true) {
                    f(span_index(px, py, x as int, y as int, true), pix(&old0, px, py))
                } else {
                    pix(&old0, px, py)
                }) by {}
            return;
        }
        proof { self.lemma_layout(); }
        let (ux, uy, ulen) = (x as usize, y as usize, len as usize);
        let full = color.is_opaque() && cover == Self::cover_mask();
        let mut i: usize = 0;
        proof { lemma_span_empty(&old0, x as int, y as int, true, f); }
        while i < ulen
            invariant
                old0.wf(),
                0 <= i <= ulen,
                ux == x && uy == y && ulen == len,
                y + len <= old0.height_spec(),
                x < old0.width_spec(),
                color.rgba().3 != 0,
                full == (color.rgba().3 == 255 && cover == 255),
                f == (|i: int, px: Seq<u8>| cob::<Self, C>(px, color, cover)),
                span_update(&old0, self, x as int, y as int, i as int, true, f),
            decreases ulen - i,
        {
            let ghost mid = *self;
            proof {
                self.lemma_layout();
                T::lemma_encode_len(color.rgba());
                T::lemma_blend_len(pix(self, ux as int, uy + i), color.rgba(), cover);
                assert(pix(&mid, ux as int, uy + i) == pix(&old0, ux as int, uy + i));
            }
            if full {
                self.set((ux, uy + i), color);
            } else {
                self.blend_pix((ux, uy + i), color, cover);
            }
            proof {
                lemma_span_step(&old0, &mid, self, x as int, y as int, i as int, true, f,
                    f(i as int, pix(&old0, ux as int, uy + i)));
            }
            i += 1;
        }
    }

    fn blend_solid_hspan<C: Color>(&mut self, x: i64, y: i64, len: i64, color: C, covers: &[u64]) {
        let ghost old0 = *self;
        let ghost f = |i: int, px: Seq<u8>| cob::<Self, C>(px, color, covers@[i]);
        proof { lemma_span_empty(&old0, x as int, y as int, false, f); }
        let n = covers.len();
        let mut i: usize = 0;
        while i < n
            invariant
                old0.wf(),
                0 <= i <= n,
                n == covers@.len() == len,
                len == 0 || fits_i64(x + len - 1),
                color.rgba().3 != 0 ==> {
                    &&& 0 <= x && 0 <= y
                    &&& x + len <= old0.width_spec()
                    &&& y < old0.height_spec()
                },
                f == (|i: int, px: Seq<u8>| cob::<Self, C>(px, color, covers@[i])),
                span_update(&old0, self, x as int, y as int, i as int, false, f),
            decreases n - i,
        {
            let ghost mid = *self;
            let cover = covers[i];
            self.blend_hline(x + i as i64, y, 1, color, cover);
            proof {
                lemma_span_compose(&old0, &mid, self, x as int, y as int, i as int, false, f, false,
                    |j: int, px: Seq<u8>| cob::<Self, C>(px, color, cover));
            }
            i += 1;
        }
    }

    fn blend_solid_vspan<C: Color>(&mut self, x: i64, y: i64, len: i64, color: C, covers: &[u64]) {
        let ghost old0 = *self;
        let ghost f = |i: int, px: Seq<u8>| cob::<Self, C>(px, color, covers@[i]);
        proof { lemma_span_empty(&old0, x as int, y as int, true, f); }
        let n = covers.len();
        let mut i: usize = 0;
        while i < n
            invariant
                old0.wf(),
                0 <= i <= n,
                n == covers@.len() == len,
                len == 0 || fits_i64(y + len - 1),
                color.rgba().3 != 0 ==> {
                    &&& 0 <= x && 0 <= y
                    &&& y + len <= old0.height_spec()
                    &&& x < old0.width_spec()
                },
                f == (|i: int, px: Seq<u8>| cob::<Self, C>(px, color, covers@[i])),
                span_update(&old0, self, x as int, y as int, i as int, true, f),
            decreases n - i,
        {
            let ghost mid = *self;
            let cover = covers[i];
            self.blend_vline(x, y + i as i64, 1, color, cover);
            proof {
                lemma_span_compose(&old0, &mid, self, x as int, y as int, i as int, true, f, true,
                    |j: int, px: Seq<u8>| cob::<Self, C>(px, color, cover));
            }
            i += 1;
        }
    }

    fn blend_color_hspan<C: Color>(&mut self, x: i64, y: i64, len: i64, colors: &[C],
                                   covers: &[u64], cover: u64) {
        let ghost old0 = *self;
        let ghost f = |i: int, px: Seq<u8>| cob::<Self, C>(px, colors@[i],
            if covers@.len() != 0 { covers@[i] } else { cover });
        proof { lemma_span_empty(&old0, x as int, y as int, false, f); }
        let n = colors.len();
        let with_covers = covers.len() != 0;
        let mut i: usize = 0;
        while i < n
            invariant
                old0.wf(),
                0 <= i <= n,
                n == colors@.len() == len,
                with_covers == (covers@.len() != 0),
                with_covers ==> covers@.len() == colors@.len(),
                len > 0 ==> 0 <= x && 0 <= y && x + len <= usize::MAX && y <= usize::MAX,
                forall|i: int| 0 <= i < len && (#[trigger] colors@[i]).rgba().3 != 0 ==>
                    x + i < old0.width_spec() && y < old0.height_spec(),
                f == (|i: int, px: Seq<u8>| cob::<Self, C>(px, colors@[i],
                    if covers@.len() != 0 { covers@[i] } else { cover })),
                span_update(&old0, self, x as int, y as int, i as int, false, f),
            decreases n - i,
        {
            let ghost mid = *self;
            let color = colors[i];
            let id = (x as usize + i, y as usize);
            assert(id.0 == x + i && id.1 == y);
            assert(f(i as int, pix(&old0, x + i, y as int)) == cob::<Self, C>(pix(&old0, x + i, y as int),
                color, if with_covers { covers@[i as int] } else { cover }));
            if with_covers {
                let c = covers[i];
                self.copy_or_blend_pix_with_cover(id, color, c);
                proof {
                    lemma_span_compose(&old0, &mid, self, x as int, y as int, i as int, false, f, false,
                        |j: int, px: Seq<u8>| cob::<Self, C>(px, color, c));
                }
            } else if cover == 255 {
                self.copy_or_blend_pix(id, color);
                proof {
                    lemma_span_compose(&old0, &mid, self, x as int, y as int, i as int, false, f, false,
                        |j: int, px: Seq<u8>| cob::<Self, C>(px, color, 255));
                }
            } else {
                self.copy_or_blend_pix_with_cover(id, color, cover);
                proof {
                    lemma_span_compose(&old0, &mid, self, x as int, y as int, i as int, false, f, false,
                        |j: int, px: Seq<u8>| cob::<Self, C>(px, color, cover));
                }
            }
            i += 1;
        }
    }

    fn blend_color_vspan<C: Color>(&mut self, x: i64, y: i64, len: i64, colors: &[C],
                                   covers: &[u64], cover: u64) {
        let ghost old0 = *self;
        let ghost f = |i: int, px: Seq<u8>| cob::<Self, C>(px, colors@[i],
            if covers@.len() != 0 { covers@[i] } else { cover });
        proof { lemma_span_empty(&old0, x as int, y as int, true, f); }
        let n = colors.len();
        let with_covers = covers.len() != 0;
        let mut i: usize = 0;
        while i < n
            invariant
                old0.wf(),
                0 <= i <= n,
                n == colors@.len() == len,
                with_covers == (covers@.len() != 0),
                with_covers ==> covers@.len() == colors@.len(),
                len > 0 ==> 0 <= x && 0 <= y && y + len <= usize::MAX && x <= usize::MAX,
                forall|i: int| 0 <= i < len && (#[trigger] colors@[i]).rgba().3 != 0 ==>
                    y + i < old0.height_spec() && x < old0.width_spec(),
                f == (|i: int, px: Seq<u8>| cob::<Self, C>(px, colors@[i],
                    if covers@.len() != 0 { covers@[i] } else { cover })),
                span_update(&old0, self, x as int, y as int, i as int, true, f),
            decreases n - i,
        {
            let ghost mid = *self;
            let color = colors[i];
            let id = (x as usize, y as usize + i);
            assert(id.0 == x && id.1 == y + i);
            assert(f(i as int, pix(&old0, x as int, y + i)) == cob::<Self, C>(pix(&old0, x as int, y + i),
                color, if with_covers { covers@[i as int] } else { cover }));
            if with_covers {
                let c = covers[i];
                self.copy_or_blend_pix_with_cover(id, color, c);
                proof {
                    lemma_span_compose(&old0, &mid, self, x as int, y as int, i as int, true, f, false,
                        |j: int, px: Seq<u8>| cob::<Self, C>(px, color, c));
                }
            } else if cover == 255 {
                self.copy_or_blend_pix(id, color);
                proof {
                    lemma_span_compose(&old0, &mid, self, x as int, y as int, i as int, true, f, false,
                        |j: int, px: Seq<u8>| cob::<Self, C>(px, color, 255));
                }
            } else {
                self.copy_or_blend_pix_with_cover(id, color, cover);
                proof {
                    lemma_span_compose(&old0, &mid, self, x as int, y as int, i as int, true, f, false,
                        |j: int, px: Seq<u8>| cob::<Self, C>(px, color, cover));
                }
            }
            i += 1;
        }
    }

    fn fill<C: Color>(&mut self, color: C) {
        let ghost old0 = *self;
        let w = self.width();
        let h = self.height();
        proof { T::lemma_encode_len(color.rgba()); }
        let mut i: usize = 0;
        while i < w
            invariant
                old0.wf(),
                self.wf(),
                0 <= i <= w,
                w == old0.width_spec() == self.width_spec(),
                h == old0.height_spec() == self.height_spec(),
                T::encode(color.rgba()).len() == T::bpp_spec(),
                forall|px: int, py: int| 0 <= px < w && 0 <= py < h ==>
                    #[trigger] pix(self, px, py) == if px < i { T::encode(color.rgba()) } else { pix(&old0, px, py) },
            decreases w - i,
        {
            let mut j: usize = 0;
            while j < h
                invariant
                    old0.wf(),
                    self.wf(),
                    0 <= i < w,
                    0 <= j <= h,
                    w == old0.width_spec() == self.width_spec(),
                    h == old0.height_spec() == self.height_spec(),
                    T::encode(color.rgba()).len() == T::bpp_spec(),
                    forall|px: int, py: int| 0 <= px < w && 0 <= py < h ==>
                        #[trigger] pix(self, px, py) == if px < i || (px == i && py < j) {
                            T::encode(color.rgba())
                        } else {
                            pix(&old0, px, py)
                        },
                decreases h - j,
            {
                let ghost mid = *self;
                proof { self.lemma_layout(); }
                self.set((i, j), color);
                proof {
                    assert forall|px: int, py: int| 0 <= px < w && 0 <= py < h implies
                        #[trigger] pix(self, px, py) == if px < i || (px == i && py < j + 1) {
                            T::encode(color.rgba())
                        } else {
                            pix(&old0, px, py)
                        } by {
                        crate::buffer::lemma_put_pixel(mid.bytes(), w as int, h as int,
                            T::bpp_spec() as int, i as int, j as int, T::encode(color.rgba()), px, py);
                        assert(pix(&mid, px, py) == if px < i || (px == i && py < j) {
                            T::encode(color.rgba())
                        } else {
                            pix(&old0, px, py)
                        });
                    }
                }
                j += 1;
            }
            i += 1;
        }
    }
}

impl<T> Pixfmt<T> where Pixfmt<T>: Pixel {
    /// Create new Pixel Format of width * height * bpp
    ///
    /// Also creates underlying RenderingBuffer, all zero
    pub fn new(width: usize, height: usize) -> (s: Self)
        requires
            width * height <= usize::MAX,
            width * height * Self::bpp_spec() <= usize::MAX,
        ensures
            s.rbuf.wf(),
            s.rbuf.width == width && s.rbuf.height == height,
            s.rbuf.bpp == Self::bpp_spec(),
            forall|i: int| 0 <= i < s.rbuf.data@.len() ==> #[trigger] s.rbuf.data@[i] == 0,
    {
        Self { rbuf: RenderingBuffer::new(width, height, Self::bpp()), phantom: PhantomData }
    }

    /// Write `c` to pixel (`x`,`y`)
    pub fn copy_pixel<C: Color>(&mut self, x: usize, y: usize, c: C)
        requires
            old(self).wf(),
            x < old(self).width_spec(),
            y < old(self).height_spec(),
        ensures
            span_update(old(self), final(self), x as int, y as int, 1, false,
                |i: int, px: Seq<u8>| Self::encode(c.rgba())),
    {
        let ghost old0 = *self;
        proof {
            lemma_span_empty(&old0, x as int, y as int, false,
                |i: int, px: Seq<u8>| Self::encode(c.rgba()));
            Self::lemma_encode_len(c.rgba());
        }
        self.set((x, y), c);
        proof {
            lemma_span_step(&old0, &old0, self, x as int, y as int, 0, false,
                |i: int, px: Seq<u8>| Self::encode(c.rgba()), Self::encode(c.rgba()));
        }
    }

    /// Write `c` to the `n` pixels from (`x`,`y`) along the row
    pub fn copy_hline<C: Color>(&mut self, x: usize, y: usize, n: usize, c: C)
        requires
            old(self).wf(),
            x + n <= old(self).width_spec(),
            n == 0 || y < old(self).height_spec(),
        ensures
            span_update(old(self), final(self), x as int, y as int, n as int, false,
                |i: int, px: Seq<u8>| Self::encode(c.rgba())),
    {
        let ghost old0 = *self;
        let ghost f = |i: int, px: Seq<u8>| Self::encode(c.rgba());
        proof {
            lemma_span_empty(&old0, x as int, y as int, false, f);
            Self::lemma_encode_len(c.rgba());
        }
        let mut i: usize = 0;
        while i < n
            invariant
                old0.wf(),
                0 <= i <= n,
                x + n <= old0.width_spec(),
                n == 0 || y < old0.height_spec(),
                Self::encode(c.rgba()).len() == Self::bpp_spec(),
                f == (|i: int, px: Seq<u8>| Self::encode(c.rgba())),
                span_update(&old0, self, x as int, y as int, i as int, false, f),
            decreases n - i,
        {
            let ghost mid = *self;
            proof { old0.lemma_layout(); }
            self.set((x + i, y), c);
            proof {
                lemma_span_step(&old0, &mid, self, x as int, y as int, i as int, false, f,
                    Self::encode(c.rgba()));
            }
            i += 1;
        }
    }

    /// Write `c` to the `n` pixels from (`x`,`y`) along the column
    pub fn copy_vline<C: Color>(&mut self, x: usize, y: usize, n: usize, c: C)
        requires
            old(self).wf(),
            y + n <= old(self).height_spec(),
            n == 0 || x < old(self).width_spec(),
        ensures
            span_update(old(self), final(self), x as int, y as int, n as int, true,
                |i: int, px: Seq<u8>| Self::encode(c.rgba())),
    {
        let ghost old0 = *self;
        let ghost f = |i: int, px: Seq<u8>| Self::encode(c.rgba());
        proof {
            lemma_span_empty(&old0, x as int, y as int, true, f);
            Self::lemma_encode_len(c.rgba());
        }
        let mut i: usize = 0;
        while i < n
            invariant
                old0.wf(),
                0 <= i <= n,
                y + n <= old0.height_spec(),
                n == 0 || x < old0.width_spec(),
                Self::encode(c.rgba()).len() == Self::bpp_spec(),
                f == (|i: int, px: Seq<u8>| Self::encode(c.rgba())),
                span_update(&old0, self, x as int, y as int, i as int, true, f),
            decreases n - i,
        {
            let ghost mid = *self;
            proof { old0.lemma_layout(); }
            self.set((x, y + i), c);
            proof {
                lemma_span_step(&old0, &mid, self, x as int, y as int, i as int, true, f,
                    Self::encode(c.rgba()));
            }
            i += 1;
        }
    }

    /// Write the colors `c` to the pixels from (`x`,`y`) along the row
    pub fn blend_color_hspan_old<C: Color>(&mut self, x: usize, y: usize, _n: usize,
                                           c: &[C], _cover: usize)
        requires
            old(self).wf(),
            x + c@.len() <= old(self).width_spec(),
            c@.len() == 0 || y < old(self).height_spec(),
        ensures
            span_update(old(self), final(self), x as int, y as int, c@.len() as int, false,
                |i: int, px: Seq<u8>| Self::encode(c@[i].rgba())),
    {
        let ghost old0 = *self;
        let ghost f = |i: int, px: Seq<u8>| Self::encode(c@[i].rgba());
        proof { lemma_span_empty(&old0, x as int, y as int, false, f); }
        let n = c.len();
        let mut i: usize = 0;
        while i < n
            invariant
                old0.wf(),
                0 <= i <= n,
                n == c@.len(),
                x + n <= old0.width_spec(),
                n == 0 || y < old0.height_spec(),
                f == (|i: int, px: Seq<u8>| Self::encode(c@[i].rgba())),
                span_update(&old0, self, x as int, y as int, i as int, false, f),
            decreases n - i,
        {
            let ghost mid = *self;
            let ci = c[i];
            proof { Self::lemma_encode_len(ci.rgba()); old0.lemma_layout(); }
            self.set((x + i, y), ci);
            proof {
                lemma_span_step(&old0, &mid, self, x as int, y as int, i as int, false, f,
                    Self::encode(ci.rgba()));
            }
            i += 1;
        }
    }
}

impl<T> Pixfmt<T> {
    /// Size of Rendering Buffer
    pub fn len(&self) -> (r: usize)
        ensures
            r == self.rbuf.data@.len(),
    {
        self.rbuf.len()
    }

    /// Clear the Image: every byte becomes 255
    pub fn clear(&mut self)
        ensures
            final(self).rbuf.data@.len() == old(self).rbuf.data@.len(),
            final(self).rbuf.width == old(self).rbuf.width,
            final(self).rbuf.height == old(self).rbuf.height,
            final(self).rbuf.bpp == old(self).rbuf.bpp,
            forall|i: int| 0 <= i < final(self).rbuf.data@.len() ==> #[trigger] final(self).rbuf.data@[i] == 255,
    {
        self.rbuf.clear();
    }

    /// A pixel format over the buffer `rbuf`
    pub fn from(rbuf: RenderingBuffer) -> (s: Self)
        ensures
            s.rbuf == rbuf,
    {
        Self { rbuf, phantom: PhantomData }
    }
}

impl crate::Source for Pixfmt<Rgba8> {
    open spec fn source_ok(&self, id: (usize, usize)) -> bool {
        self.wf() && id.0 < self.rbuf.width && id.1 < self.rbuf.height
    }

    open spec fn source_color(&self, id: (usize, usize)) -> Rgba8 {
        let p = self.rbuf.pixel_at(id.0 as int, id.1 as int);
        Rgba8 { r: p[0], g: p[1], b: p[2], a: p[3] }
    }

    fn get(&self, id: (usize, usize)) -> (c: Rgba8) {
        self.get_rgba8(id)
    }
}

impl crate::Source for Pixfmt<Rgba8pre> {
    open spec fn source_ok(&self, id: (usize, usize)) -> bool {
        self.wf() && id.0 < self.rbuf.width && id.1 < self.rbuf.height
    }

    open spec fn source_color(&self, id: (usize, usize)) -> Rgba8 {
        let p = self.rbuf.pixel_at(id.0 as int, id.1 as int);
        Rgba8 { r: p[0], g: p[1], b: p[2], a: p[3] }
    }

    fn get(&self, id: (usize, usize)) -> (c: Rgba8) {
        let p = self.get_rgba8pre(id);
        Rgba8::new(p.r, p.g, p.b, p.a)
    }
}

impl crate::Source for Pixfmt<Rgb8> {
    open spec fn source_ok(&self, id: (usize, usize)) -> bool {
        self.wf() && id.0 < self.rbuf.width && id.1 < self.rbuf.height
    }

    open spec fn source_color(&self, id: (usize, usize)) -> Rgba8 {
        let p = self.rbuf.pixel_at(id.0 as int, id.1 as int);
        Rgba8 { r: p[0], g: p[1], b: p[2], a: 255 }
    }

    fn get(&self, id: (usize, usize)) -> (c: Rgba8) {
        let p = Pixfmt::<Rgb8>::get(self, id);
        Rgba8::new(p.r, p.g, p.b, 255)
    }
}

} // verus!

verus! {

/// Blending an opaque color at full cover writes the color, and blending
/// at zero cover leaves the pixel as it was (32-bit pixels)
pub proof fn lemma_rgba8_blend_laws(px: Seq<u8>, c: (u8, u8, u8, u8))
    requires
        px.len() == 4,
    ensures
        c.3 == 255 ==> <Pixfmt<Rgba8> as Pixel>::blend_bytes(px, c, 255) == <Pixfmt<Rgba8> as Pixel>::encode(c),
        <Pixfmt<Rgba8> as Pixel>::blend_bytes(px, c, 0) == px,
{
    crate::math::lemma_multiply_ends(c.3);
    crate::math::lemma_multiply_ends(255);
    crate::math::lemma_lerp_ends(px[0], c.0);
    crate::math::lemma_lerp_ends(px[1], c.1);
    crate::math::lemma_lerp_ends(px[2], c.2);
    crate::math::lemma_lerp_ends(px[3], 255);
    crate::math::lemma_lerp_ends(px[3], 0);
    assert((255u64 as u8) == 255u8 && (0u64 as u8) == 0u8);
    assert(<Pixfmt<Rgba8> as Pixel>::blend_bytes(px, c, 0) =~= px);
    if c.3 == 255 {
        assert(<Pixfmt<Rgba8> as Pixel>::blend_bytes(px, c, 255) =~= <Pixfmt<Rgba8> as Pixel>::encode(c));
    }
}

/// Blending an opaque color at full cover writes the color, and blending
/// at zero cover leaves the pixel as it was (24-bit pixels)
pub proof fn lemma_rgb8_blend_laws(px: Seq<u8>, c: (u8, u8, u8, u8))
    requires
        px.len() == 3,
    ensures
        c.3 == 255 ==> <Pixfmt<Rgb8> as Pixel>::blend_bytes(px, c, 255) == <Pixfmt<Rgb8> as Pixel>::encode(c),
        <Pixfmt<Rgb8> as Pixel>::blend_bytes(px, c, 0) == px,
{
    crate::math::lemma_multiply_ends(c.3);
    crate::math::lemma_lerp_ends(px[0], c.0);
    crate::math::lemma_lerp_ends(px[1], c.1);
    crate::math::lemma_lerp_ends(px[2], c.2);
    assert((255u64 as u8) == 255u8 && (0u64 as u8) == 0u8);
    assert(<Pixfmt<Rgb8> as Pixel>::blend_bytes(px, c, 0) =~= px);
    if c.3 == 255 {
        assert(<Pixfmt<Rgb8> as Pixel>::blend_bytes(px, c, 255) =~= <Pixfmt<Rgb8> as Pixel>::encode(c));
    }
}

/// Composing an opaque premultiplied color at full cover writes the color,
/// and composing at zero cover leaves the pixel as it was
pub proof fn lemma_rgba8pre_blend_laws(px: Seq<u8>, c: (u8, u8, u8, u8))
    requires
        px.len() == 4,
    ensures
        c.3 == 255 ==> <Pixfmt<Rgba8pre> as Pixel>::blend_bytes(px, c, 255) == <Pixfmt<Rgba8pre> as Pixel>::encode(c),
        <Pixfmt<Rgba8pre> as Pixel>::blend_bytes(px, c, 0) == px,
{
    crate::math::lemma_multiply_ends(c.0);
    crate::math::lemma_multiply_ends(c.1);
    crate::math::lemma_multiply_ends(c.2);
    crate::math::lemma_multiply_ends(c.3);
    crate::math::lemma_prelerp_ends(px[0], c.0);
    crate::math::lemma_prelerp_ends(px[1], c.1);
    crate::math::lemma_prelerp_ends(px[2], c.2);
    crate::math::lemma_prelerp_ends(px[3], 255);
    crate::math::lemma_multiply_ends(px[0]);
    crate::math::lemma_multiply_ends(px[1]);
    crate::math::lemma_multiply_ends(px[2]);
    crate::math::lemma_multiply_ends(px[3]);
    assert((0u64 as u8) == 0u8);
    assert(<Pixfmt<Rgba8pre> as Pixel>::blend_bytes(px, c, 0) =~= px);
    if c.3 == 255 {
        assert(<Pixfmt<Rgba8pre> as Pixel>::blend_bytes(px, c, 255) =~= <Pixfmt<Rgba8pre> as Pixel>::encode(c));
    }
}

} // verus!

verus! {

use crate::render::{LineInterpolator, dda_inc_n, dda_forward, dda_value, lemma_dda_new, lemma_dda_inc_n};
use crate::fixed::iabs;

/// The ends of an aliased line from (`x1`,`y1`) to (`x2`,`y2`) along its
/// major axis: whether that axis is y, then the major and minor
/// coordinates of the end with the smaller major coordinate, then of the
/// other end
pub open spec fn sp_ends(x1: int, y1: int, x2: int, y2: int) -> (bool, int, int, int, int) {
    let steep = iabs(x2 - x1) < iabs(y2 - y1);
    let (a1, b1, a2, b2) = if steep { (y1, x1, y2, x2) } else { (x1, y1, x2, y2) };
    if a2 < a1 { (steep, a2, b2, a1, b1) } else { (steep, a1, b1, a2, b2) }
}

/// The minor coordinate of the aliased line at major coordinate `a`: the
/// interpolator from the first end's minor coordinate to the second's, in
/// as many steps as the line spans along its major axis, at least one
pub open spec fn sp_minor(x1: int, y1: int, x2: int, y2: int, a: int) -> int {
    let e = sp_ends(x1, y1, x2, y2);
    let count = if e.3 - e.1 < 1 { 1 } else { e.3 - e.1 };
    dda_inc_n(LineInterpolator::new_spec(e.2, e.4, count), (a - e.1) as nat).4
}

/// Pixel (`px`,`py`) is one of the aliased line's pixels whose major
/// coordinate is below `upto`; the line has one pixel for every major
/// coordinate from its first end up to, not including, its second end
pub open spec fn sp_pixel(x1: int, y1: int, x2: int, y2: int, px: int, py: int, upto: int) -> bool {
    let e = sp_ends(x1, y1, x2, y2);
    let (a, b) = if e.0 { (py, px) } else { (px, py) };
    &&& e.1 <= a < upto
    &&& a < e.3
    &&& b == sp_minor(x1, y1, x2, y2, a)
}

/// Pixel (`px`,`py`) is one of the aliased line's pixels
pub open spec fn on_sp_line(x1: int, y1: int, x2: int, y2: int, px: int, py: int) -> bool {
    sp_pixel(x1, y1, x2, y2, px, py, sp_ends(x1, y1, x2, y2).3)
}

/// The aliased line from (`x1`,`y1`) to (`x2`,`y2`) has exactly one pixel
/// at each major coordinate from the smaller of its ends' up to, not
/// including, the larger (the major axis being y where the line is steeper
/// than diagonal, else x), whichever way the line goes, and no other; the
/// first of them is the end with the smaller major coordinate
pub proof fn lemma_sp_line_pixels(x1: int, y1: int, x2: int, y2: int)
    ensures
        ({
            let steep = iabs(x2 - x1) < iabs(y2 - y1);
            let m1 = if steep { y1 } else { x1 };
            let m2 = if steep { y2 } else { x2 };
            let lo = if m1 <= m2 { m1 } else { m2 };
            let hi = if m1 <= m2 { m2 } else { m1 };
            &&& forall|px: int, py: int| #[trigger] on_sp_line(x1, y1, x2, y2, px, py)
                ==> lo <= (if steep { py } else { px }) < hi
            &&& forall|px: int, py: int, qx: int, qy: int|
                #[trigger] on_sp_line(x1, y1, x2, y2, px, py) && #[trigger] on_sp_line(x1, y1, x2, y2, qx, qy)
                && (if steep { py == qy } else { px == qx }) ==> px == qx && py == qy
            &&& forall|a: int| lo <= a < hi ==> (!steep ==> on_sp_line(x1, y1, x2, y2, a, #[trigger] sp_minor(x1, y1, x2, y2, a)))
                && (steep ==> on_sp_line(x1, y1, x2, y2, sp_minor(x1, y1, x2, y2, a), a))
            &&& lo < hi && m1 < m2 ==> on_sp_line(x1, y1, x2, y2, x1, y1)
            &&& lo < hi && m2 < m1 ==> on_sp_line(x1, y1, x2, y2, x2, y2)
        }),
{
    let e = sp_ends(x1, y1, x2, y2);
    let count = if e.3 - e.1 < 1 { 1 } else { e.3 - e.1 };
    assert(dda_inc_n(LineInterpolator::new_spec(e.2, e.4, count), 0) == LineInterpolator::new_spec(e.2, e.4, count));
    assert(sp_minor(x1, y1, x2, y2, e.1) == e.2);
}

/// The pixels of an aliased line follow the line between its ends: at major
/// coordinate `a`, `k = a - lo` steps from the end with the smaller major
/// coordinate, the minor coordinate is within one pixel of the ideal
/// line's, `hi - lo` times it being within `hi - lo` of `k` times the rise
pub proof fn lemma_sp_line_follows(x1: int, y1: int, x2: int, y2: int, a: int)
    ensures
        ({
            let steep = iabs(x2 - x1) < iabs(y2 - y1);
            let (m1, n1, m2, n2) = if steep { (y1, x1, y2, x2) } else { (x1, y1, x2, y2) };
            let (lo, nlo, hi, nhi) = if m2 < m1 { (m2, n2, m1, n1) } else { (m1, n1, m2, n2) };
            lo <= a < hi ==> iabs((hi - lo) * (sp_minor(x1, y1, x2, y2, a) - nlo) - (a - lo) * (nhi - nlo))
                < hi - lo
        }),
{
    let e = sp_ends(x1, y1, x2, y2);
    if e.1 <= a < e.3 {
        crate::render::lemma_dda_forward_walk(e.2, e.4, e.3 - e.1, (a - e.1) as nat);
    }
}

/// An aliased line sets the same pixels whichever end it is drawn from
pub proof fn lemma_sp_line_reversed(x1: int, y1: int, x2: int, y2: int, px: int, py: int)
    ensures
        on_sp_line(x1, y1, x2, y2, px, py) == on_sp_line(x2, y2, x1, y1, px, py),
{
}

/// Largest magnitude of an end of an aliased line, in pixels
pub const SP_LIMIT: i64 = 0x100_0000_0000;

impl<T> Pixfmt<T> where Pixfmt<T>: Pixel {
    /// Draw the aliased line from pixel (`x1`,`y1`) to pixel (`x2`,`y2`) in
    /// color `c`: one pixel for each step along the major axis, from the end
    /// with the smaller major coordinate up to the other end, which is not
    /// drawn, the minor coordinate following the interpolator between the
    /// ends
    #[verifier::rlimit(40)]
    pub fn line_sp_pixels(&mut self, x1: i64, y1: i64, x2: i64, y2: i64, c: Rgb8)
        requires
            old(self).wf(),
            -SP_LIMIT <= x1 <= SP_LIMIT && -SP_LIMIT <= y1 <= SP_LIMIT,
            -SP_LIMIT <= x2 <= SP_LIMIT && -SP_LIMIT <= y2 <= SP_LIMIT,
            old(self).width_spec() <= SP_LIMIT && old(self).height_spec() <= SP_LIMIT,
            forall|px: int, py: int| #[trigger] on_sp_line(x1 as int, y1 as int, x2 as int, y2 as int, px, py)
                ==> 0 <= px < old(self).width_spec() && 0 <= py < old(self).height_spec(),
        ensures
            final(self).wf(),
            final(self).width_spec() == old(self).width_spec(),
            final(self).height_spec() == old(self).height_spec(),
            forall|px: int, py: int| 0 <= px < old(self).width_spec() && 0 <= py < old(self).height_spec()
                ==> #[trigger] crate::pix(final(self), px, py) == (if on_sp_line(x1 as int, y1 as int, x2 as int,
                    y2 as int, px, py) { Self::encode(c.rgba()) } else { crate::pix(old(self), px, py) }),
    {
        let ghost e = sp_ends(x1 as int, y1 as int, x2 as int, y2 as int);
        let dx: i64 = if x2 >= x1 { x2 - x1 } else { x1 - x2 };
        let dy: i64 = if y2 >= y1 { y2 - y1 } else { y1 - y2 };
        let steep = dx < dy;
        let (a1, b1, a2, b2) = if steep { (y1, x1, y2, x2) } else { (x1, y1, x2, y2) };
        let (a1, b1, a2, b2) = if a2 < a1 { (a2, b2, a1, b1) } else { (a1, b1, a2, b2) };
        assert(e == (steep, a1 as int, b1 as int, a2 as int, b2 as int));
        let count: i64 = if a2 - a1 < 1 { 1 } else { a2 - a1 };
        let mut li = LineInterpolator::new(b1, b2, count);
        let ghost f0 = li.fields();
        proof { lemma_dda_new(b1 as int, b2 as int, count as int); }
        assert(-0x200_0000_0001 <= f0.1 <= 0x200_0000_0000) by (nonlinear_arith)
            requires f0.1 * count + f0.2 == b2 - b1, 0 < f0.2 <= count, count >= 1,
                -0x200_0000_0000 <= b2 - b1 <= 0x200_0000_0000;
        let ghost w = self.width_spec();
        let ghost h = self.height_spec();
        let ghost old0 = *self;
        let mut a: i64 = a1;
        while a < a2
            invariant
                a1 <= a <= a2,
                e == (steep, a1 as int, b1 as int, a2 as int, b2 as int),
                e == sp_ends(x1 as int, y1 as int, x2 as int, y2 as int),
                -SP_LIMIT <= a1 && a2 <= SP_LIMIT,
                -SP_LIMIT <= b1 <= SP_LIMIT && -SP_LIMIT <= b2 <= SP_LIMIT,
                count == (if a2 - a1 < 1 { 1 } else { a2 - a1 }),
                f0 == LineInterpolator::new_spec(b1 as int, b2 as int, count as int),
                dda_forward(f0),
                -0x200_0000_0001 <= f0.1 <= 0x200_0000_0000,
                1 <= count <= 0x200_0000_0000,
                w <= SP_LIMIT && h <= SP_LIMIT,
                f0.1 * count + f0.2 == b2 - b1,
                dda_value(f0) == b1 * count + f0.3,
                li.fields() == dda_inc_n(f0, (a - a1) as nat),
                self.wf(),
                self.width_spec() == w && self.height_spec() == h,
                w == old0.width_spec() && h == old0.height_spec(),
                old0.wf(),
                forall|px: int, py: int| #[trigger] on_sp_line(x1 as int, y1 as int, x2 as int, y2 as int, px, py)
                    ==> 0 <= px < w && 0 <= py < h,
                forall|px: int, py: int| 0 <= px < w && 0 <= py < h ==> #[trigger] crate::pix(self, px, py)
                    == (if sp_pixel(x1 as int, y1 as int, x2 as int, y2 as int, px, py, a as int) {
                        Self::encode(c.rgba()) } else { crate::pix(&old0, px, py) }),
            decreases a2 - a,
        {
            let ghost k: nat = (a - a1) as nat;
            proof {
                lemma_dda_inc_n(f0, k);
            }
            let b: i64 = li.y;
            assert(e.1 == a1 && e.2 == b1 && e.3 == a2 && e.4 == b2);
            assert((if e.3 - e.1 < 1 { 1 } else { e.3 - e.1 }) == count as int);
            assert(LineInterpolator::new_spec(e.2, e.4, if e.3 - e.1 < 1 { 1 } else { e.3 - e.1 }) == f0);
            assert(((a - e.1) as nat) == k);
            assert(sp_ends(x1 as int, y1 as int, x2 as int, y2 as int) == e);
            assert(sp_minor(x1 as int, y1 as int, x2 as int, y2 as int, a as int)
                == dda_inc_n(LineInterpolator::new_spec(e.2, e.4, if e.3 - e.1 < 1 { 1 } else { e.3 - e.1 }),
                    ((a as int) - e.1) as nat).4);
            assert(sp_minor(x1 as int, y1 as int, x2 as int, y2 as int, a as int) == dda_inc_n(f0, k).4);
            assert(b == sp_minor(x1 as int, y1 as int, x2 as int, y2 as int, a as int));
            let (px, py) = if steep { (b, a) } else { (a, b) };
            assert(on_sp_line(x1 as int, y1 as int, x2 as int, y2 as int, px as int, py as int));
            let ghost before = *self;
            self.set((px as usize, py as usize), c);
            proof {
                before.lemma_layout();
                Self::lemma_encode_len(c.rgba());
                assert forall|qx: int, qy: int| 0 <= qx < w && 0 <= qy < h implies #[trigger] crate::pix(self, qx, qy)
                    == (if sp_pixel(x1 as int, y1 as int, x2 as int, y2 as int, qx, qy, a + 1) {
                        Self::encode(c.rgba()) } else { crate::pix(&old0, qx, qy) }) by {
                    crate::buffer::lemma_put_pixel(before.bytes(), w as int, h as int, Self::bpp_spec() as int,
                        px as int, py as int, Self::encode(c.rgba()), qx, qy);
                    assert(crate::pix(&before, qx, qy) == (if sp_pixel(x1 as int, y1 as int, x2 as int, y2 as int,
                        qx, qy, a as int) { Self::encode(c.rgba()) } else { crate::pix(&old0, qx, qy) }));
                }
                lemma_dda_inc_n(f0, k);
            }
            li.inc();
            a += 1;
        }
        assert forall|px: int, py: int| 0 <= px < w && 0 <= py < h implies
            sp_pixel(x1 as int, y1 as int, x2 as int, y2 as int, px, py, a as int)
                == on_sp_line(x1 as int, y1 as int, x2 as int, y2 as int, px, py) by {}
    }
}

} // verus!
