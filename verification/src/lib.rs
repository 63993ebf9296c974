//! Anti Grain Geometry: 2D rasterization with subpixel accuracy and
//! anti-aliasing.
//!
//! Coordinates are held in subpixels: `POLY_SUBPIXEL_SCALE` subpixels make
//! one pixel.

use vstd::prelude::*;

pub mod fixed;
pub mod math;
pub mod render;
pub mod line_interp;
pub mod color;
pub mod buffer;
pub mod scan;
pub mod path_storage;
pub mod conv_stroke;
pub mod stroke;
pub mod outline;
pub mod outline_aa;
pub mod outline_cut;
pub mod outline_dot;
pub mod outline_draw;
pub mod outline_img;
pub mod raster;
pub mod pixfmt;
pub mod base;
pub mod ppm;

verus! {

pub const POLY_SUBPIXEL_SHIFT: i64 = 8;
pub const POLY_SUBPIXEL_SCALE: i64 = 256;
pub const POLY_SUBPIXEL_MASK: i64 = 255;
pub const POLY_MR_SUBPIXEL_SHIFT: i64 = 4;
pub const MAX_HALF_WIDTH: usize = 64;

/// Largest magnitude of a line end point, in subpixels (65536 pixels)
///
/// The distances of the outline interpolators are products of two
/// coordinate differences; within this range those products, and the
/// divisions by the line length that follow them, stay exact in 64-bit
/// integers and also in the 53-bit mantissa of a double, so the values
/// computed here are the ones a floating-point evaluation of the same
/// formulas gives.
pub const COORD_LIMIT: i64 = 0x100_0000;

/// Largest magnitude of a point that steers a line end (a bisectrix point),
/// in subpixels
///
/// Bisectrix points lie within a few line lengths of the line; this range
/// keeps their distance products exact in the same way as `COORD_LIMIT`.
pub const AUX_LIMIT: i64 = 0x400_0000;

/// A line end point in range
pub open spec fn in_coord(v: int) -> bool {
    -COORD_LIMIT <= v <= COORD_LIMIT
}

/// A steering point in range
pub open spec fn in_aux(v: int) -> bool {
    -AUX_LIMIT <= v <= AUX_LIMIT
}

/// Target of the anti-aliased outline interpolators: turns a distance into
/// a coverage and draws spans of coverages
pub trait RenderOutline: Sized {
    /// The coverage of a pixel at distance `d` from the line
    spec fn cover_spec(&self, d: i64) -> u64;

    /// The coverage can be asked for distance `d`
    spec fn cover_ok(&self, d: i64) -> bool;

    /// A span of `len` pixels from (`x`,`y`), along a row or (`vertical`)
    /// a column, can be drawn from `ncovers` coverages
    spec fn span_ok(&self, x: i64, y: i64, len: i64, ncovers: int, vertical: bool) -> bool;

    /// `after` is this renderer after drawing such a span with coverages `covers`
    spec fn span_drawn(&self, after: &Self, x: i64, y: i64, len: i64, covers: Seq<u64>,
                       vertical: bool) -> bool;

    fn cover(&self, d: i64) -> (r: u64)
        requires
            self.cover_ok(d),
        ensures
            r == self.cover_spec(d),
    ;

    fn blend_solid_hspan(&mut self, x: i64, y: i64, len: i64, covers: &[u64])
        requires
            old(self).span_ok(x, y, len, covers@.len() as int, false),
        ensures
            old(self).span_drawn(final(self), x, y, len, covers@, false),
    ;

    fn blend_solid_vspan(&mut self, x: i64, y: i64, len: i64, covers: &[u64])
        requires
            old(self).span_ok(x, y, len, covers@.len() as int, true),
        ensures
            old(self).span_drawn(final(self), x, y, len, covers@, true),
    ;
}

/// Every coverage that spreading around a pixel at distance `s1` from the
/// line asks for can be given: the center's, and that of each table
/// distance on either side within the width
pub open spec fn covers_queryable<R: RenderOutline>(ren: &R, dist: Seq<i64>, width: int, s1: int) -> bool {
    &&& ren.cover_ok(s1 as i64)
    &&& forall|k: int| 1 <= k <= 64 && dist[k] - s1 <= width ==> ren.cover_ok((dist[k] - s1) as i64)
    &&& forall|k: int| 1 <= k <= 64 && dist[k] + s1 <= width ==> ren.cover_ok((dist[k] + s1) as i64)
}

/// Any span of up to 132 pixels near the line can be drawn from at least
/// as many coverages
pub open spec fn spans_drawable<R: RenderOutline>(ren: &R, vertical: bool) -> bool {
    forall|x: i64, y: i64, len: i64, n: int|
        #![trigger ren.span_ok(x, y, len, n, vertical)]
        -0x20_0000_0000_0000 <= x <= 0x20_0000_0000_0000
        && -0x20_0000_0000_0000 <= y <= 0x20_0000_0000_0000
        && 0 <= len <= n <= 132
        ==> ren.span_ok(x, y, len, n, vertical)
}

/// Access to the 8-bit components of a color
pub trait Color: Copy {
    /// Red, green, blue and alpha, each in `0..=255`
    spec fn rgba(&self) -> (u8, u8, u8, u8);

    /// Whether the components are premultiplied by alpha
    spec fn premultiplied() -> bool;

    /// Get red value [0,255] as u8
    fn red8(&self) -> (r: u8)
        ensures
            r == self.rgba().0,
    ;

    /// Get green value [0,255] as u8
    fn green8(&self) -> (r: u8)
        ensures
            r == self.rgba().1,
    ;

    /// Get blue value [0,255] as u8
    fn blue8(&self) -> (r: u8)
        ensures
            r == self.rgba().2,
    ;

    /// Get alpha value [0,255] as u8
    fn alpha8(&self) -> (r: u8)
        ensures
            r == self.rgba().3,
    ;

    /// Return if the color is completely transparent, alpha = 0
    fn is_transparent(&self) -> (r: bool)
        ensures
            r == (self.rgba().3 == 0),
    {
        self.alpha8() == 0
    }

    /// Return if the color is completely opaque, alpha = 255
    fn is_opaque(&self) -> (r: bool)
        ensures
            r == (self.rgba().3 == 255),
    {
        self.alpha8() == 255
    }

    /// Return if the color has been premultiplied
    fn is_premultiplied(&self) -> (r: bool)
        ensures
            r == Self::premultiplied(),
    ;
}

/// The bytes of pixel (`x`,`y`) of an image
pub open spec fn pix<P: Pixel>(p: &P, x: int, y: int) -> Seq<u8> {
    crate::buffer::pixel_of(p.bytes(), p.width_spec() as int, P::bpp_spec() as int, x, y)
}

/// Offset of the first byte of pixel (`x`,`y`) of an image
pub open spec fn pix_offset<P: Pixel>(p: &P, x: int, y: int) -> int {
    crate::buffer::pixel_offset(x, y, p.width_spec() as int, P::bpp_spec() as int)
}

/// What copying or blending `c` with `cover` makes of pixel bytes `px`:
/// nothing for a transparent color, a copy for an opaque color at full
/// cover, else a blend
pub open spec fn cob<P: Pixel, C: Color>(px: Seq<u8>, c: C, cover: u64) -> Seq<u8> {
    if c.rgba().3 == 0 {
        px
    } else if c.rgba().3 == 255 && cover == 255 {
        P::encode(c.rgba())
    } else {
        P::blend_bytes(px, c.rgba(), cover)
    }
}

/// Pixel (`px`,`py`) is one of the `len` pixels of a row (or, `vertical`,
/// a column) from (`x`,`y`)
pub open spec fn in_span(px: int, py: int, x: int, y: int, len: int, vertical: bool) -> bool {
    if vertical { px == x && y <= py < y + len } else { py == y && x <= px < x + len }
}

/// Index in its span of a pixel of a span from (`x`,`y`)
pub open spec fn span_index(px: int, py: int, x: int, y: int, vertical: bool) -> int {
    if vertical { py - y } else { px - x }
}

/// `new` is `old` with each pixel of the span of `len` pixels from
/// (`x`,`y`) replaced by `f` of its index and its old bytes
pub open spec fn span_update<P: Pixel>(old: &P, new: &P, x: int, y: int, len: int, vertical: bool,
                                       f: spec_fn(int, Seq<u8>) -> Seq<u8>) -> bool {
    &&& new.wf()
    &&& new.width_spec() == old.width_spec()
    &&& new.height_spec() == old.height_spec()
    &&& forall|px: int, py: int| 0 <= px < old.width_spec() && 0 <= py < old.height_spec() ==>
        #[trigger] pix(new, px, py) == (if in_span(px, py, x, y, len, vertical) {
            f(span_index(px, py, x, y, vertical), pix(old, px, py))
        } else {
            pix(old, px, py)
        })
}

/// Drawing and pixel related routines
pub trait Pixel: Sized {
    /// The buffer holds every pixel of the image
    spec fn wf(&self) -> bool;

    spec fn bpp_spec() -> nat;

    spec fn width_spec(&self) -> nat;

    spec fn height_spec(&self) -> nat;

    /// The bytes of the image, row after row
    spec fn bytes(&self) -> Seq<u8>;

    /// The bytes that `set` writes for a color of components `c`
    spec fn encode(c: (u8, u8, u8, u8)) -> Seq<u8>;

    /// The bytes that `blend_pix` writes over pixel bytes `px` for a color
    /// of components `c`
    spec fn blend_bytes(px: Seq<u8>, c: (u8, u8, u8, u8), cover: u64) -> Seq<u8>;

    proof fn lemma_layout(&self)
        requires
            self.wf(),
        ensures
            self.bytes().len() == self.width_spec() * self.height_spec() * Self::bpp_spec(),
            Self::bpp_spec() >= 1,
            self.width_spec() <= usize::MAX,
            self.height_spec() <= usize::MAX,
    ;

    proof fn lemma_encode_len(c: (u8, u8, u8, u8))
        ensures
            Self::encode(c).len() == Self::bpp_spec(),
    ;

    proof fn lemma_blend_len(px: Seq<u8>, c: (u8, u8, u8, u8), cover: u64)
        ensures
            Self::blend_bytes(px, c, cover).len() == Self::bpp_spec(),
    ;

    fn cover_mask() -> (r: u64)
        ensures
            r == 255,
    ;

    fn bpp() -> (r: usize)
        ensures
            r == Self::bpp_spec(),
    ;

    fn as_bytes(&self) -> (r: &[u8])
        ensures
            r@ == self.bytes(),
    ;

    fn width(&self) -> (r: usize)
        ensures
            r == self.width_spec(),
    ;

    fn height(&self) -> (r: usize)
        ensures
            r == self.height_spec(),
    ;

    /// Write color `c` to pixel `id`
    fn set<C: Color>(&mut self, id: (usize, usize), c: C)
        requires
            old(self).wf(),
            id.0 < old(self).width_spec(),
            id.1 < old(self).height_spec(),
        ensures
            final(self).wf(),
            final(self).width_spec() == old(self).width_spec(),
            final(self).height_spec() == old(self).height_spec(),
            final(self).bytes() == crate::buffer::put(old(self).bytes(),
                crate::buffer::pixel_offset(id.0 as int, id.1 as int, old(self).width_spec() as int,
                    Self::bpp_spec() as int),
                Self::encode(c.rgba())),
    ;

    /// Blend color `c` with coverage `cover` into pixel `id`
    fn blend_pix<C: Color>(&mut self, id: (usize, usize), c: C, cover: u64)
        requires
            old(self).wf(),
            id.0 < old(self).width_spec(),
            id.1 < old(self).height_spec(),
        ensures
            final(self).wf(),
            final(self).width_spec() == old(self).width_spec(),
            final(self).height_spec() == old(self).height_spec(),
            final(self).bytes() == crate::buffer::put(old(self).bytes(),
                crate::buffer::pixel_offset(id.0 as int, id.1 as int, old(self).width_spec() as int,
                    Self::bpp_spec() as int),
                Self::blend_bytes(crate::buffer::pixel_of(old(self).bytes(),
                    old(self).width_spec() as int, Self::bpp_spec() as int, id.0 as int, id.1 as int),
                    c.rgba(), cover)),
    ;
}

/// Access Pixel source color
pub trait Source {
    /// Pixel `id` can be read
    spec fn source_ok(&self, id: (usize, usize)) -> bool;

    /// The color of pixel `id`
    spec fn source_color(&self, id: (usize, usize)) -> crate::color::Rgba8;

    fn get(&self, id: (usize, usize)) -> (c: crate::color::Rgba8)
        requires
            self.source_ok(id),
        ensures
            c == self.source_color(id),
    ;
}

/// A value that fits in an `i64`
pub open spec fn fits_i64(v: int) -> bool {
    i64::MIN <= v <= i64::MAX
}

} // verus!
