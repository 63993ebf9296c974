//! Colors

use vstd::prelude::*;
use crate::math::multiply_u8;
use crate::math::mul_div255;
use crate::Color;

verus! {

/// Color as Red, Green, Blue, and Alpha
#[derive(Debug, Default, Copy, Clone, PartialEq, Eq, Structural)]
pub struct Rgba8 {
    /// Red
    pub r: u8,
    /// Green
    pub g: u8,
    /// Blue
    pub b: u8,
    /// Alpha
    pub a: u8,
}

/// Color as Red, Green, Blue, and Alpha with pre-multiplied components
#[derive(Debug, Default, Copy, Clone, PartialEq, Eq, Structural)]
pub struct Rgba8pre {
    pub r: u8,
    pub g: u8,
    pub b: u8,
    pub a: u8,
}

/// Gray scale
#[derive(Debug, Default, Copy, Clone, PartialEq, Eq, Structural)]
pub struct Gray8 {
    pub value: u8,
    pub alpha: u8,
}

/// Color as Red, Green, Blue
#[derive(Debug, Default, Copy, Clone, PartialEq, Eq, Structural)]
pub struct Rgb8 {
    pub r: u8,
    pub g: u8,
    pub b: u8,
}

/// Color as standard Red, Green, Blue, Alpha
///
/// See <https://en.wikipedia.org/wiki/SRGB>
#[derive(Debug, Default, Copy, Clone, PartialEq, Eq, Structural)]
pub struct Srgba8 {
    /// Red
    r: u8,
    /// Green
    g: u8,
    /// Blue
    b: u8,
    /// Alpha
    a: u8,
}

/// A component scaled by an alpha: `c * a / 255` rounded to the nearest
/// integer, exact at the two ends of the alpha range
pub open spec fn premul(c: u8, a: u8) -> u8 {
    if a == 255 { c } else if a == 0 { 0 } else { mul_div255(c as int, a as int) as u8 }
}

impl Rgba8 {
    /// The color with the components of `c`
    pub fn from_trait<C: Color>(c: C) -> (r: Self)
        ensures
            (r.r, r.g, r.b, r.a) == c.rgba(),
    {
        Self::new(c.red8(), c.green8(), c.blue8(), c.alpha8())
    }

    /// White Color (255,255,255,255)
    pub fn white() -> (c: Self)
        ensures
            c == (Rgba8 { r: 255, g: 255, b: 255, a: 255 }),
    {
        Self::new(255, 255, 255, 255)
    }

    /// Black Color (0,0,0,255)
    pub fn black() -> (c: Self)
        ensures
            c == (Rgba8 { r: 0, g: 0, b: 0, a: 255 }),
    {
        Self::new(0, 0, 0, 255)
    }

    /// Create new color
    pub fn new(r: u8, g: u8, b: u8, a: u8) -> (c: Self)
        ensures
            c == (Rgba8 { r, g, b, a }),
    {
        Rgba8 { r, g, b, a }
    }

    /// Set all components, alpha included, to zero
    pub fn clear(&mut self)
        ensures
            *final(self) == (Rgba8 { r: 0, g: 0, b: 0, a: 0 }),
    {
        self.r = 0;
        self.g = 0;
        self.b = 0;
        self.a = 0;
    }

    /// The color with each component scaled by alpha
    pub fn premultiply(self) -> (p: Rgba8pre)
        ensures
            p == (Rgba8pre {
                r: premul(self.r, self.a),
                g: premul(self.g, self.a),
                b: premul(self.b, self.a),
                a: self.a,
            }),
    {
        match self.a {
            255 => {
                Rgba8pre::new(self.r, self.g, self.b, self.a)
            },
            0 => {
                Rgba8pre::new(0, 0, 0, self.a)
            },
            _ => {
                let r = multiply_u8(self.r, self.a);
                let g = multiply_u8(self.g, self.a);
                let b = multiply_u8(self.b, self.a);
                Rgba8pre::new(r, g, b, self.a)
            },
        }
    }
}

impl Gray8 {
    /// Create a new, opaque, gray scale value
    pub fn new(value: u8) -> (c: Self)
        ensures
            c == (Gray8 { value, alpha: 255 }),
    {
        Self { value, alpha: 255 }
    }

    pub fn new_with_alpha(value: u8, alpha: u8) -> (c: Self)
        ensures
            c == (Gray8 { value, alpha }),
    {
        Self { value, alpha }
    }

    /// The gray value and alpha from the first two bytes
    pub fn from_slice(v: &[u8]) -> (c: Self)
        requires
            v@.len() >= 2,
        ensures
            c == (Gray8 { value: v@[0], alpha: v@[1] }),
    {
        Self::new_with_alpha(v[0], v[1])
    }
}

impl Rgb8 {
    /// The color with the red, green and blue components of `c`
    pub fn from_trait<C: Color>(c: C) -> (r: Self)
        ensures
            r.r == c.rgba().0 && r.g == c.rgba().1 && r.b == c.rgba().2,
    {
        Self::new(c.red8(), c.green8(), c.blue8())
    }

    pub fn white() -> (c: Self)
        ensures
            c == (Rgb8 { r: 255, g: 255, b: 255 }),
    {
        Self::new(255, 255, 255)
    }

    pub fn black() -> (c: Self)
        ensures
            c == (Rgb8 { r: 0, g: 0, b: 0 }),
    {
        Self::new(0, 0, 0)
    }

    pub fn new(r: u8, g: u8, b: u8) -> (c: Self)
        ensures
            c == (Rgb8 { r, g, b }),
    {
        Rgb8 { r, g, b }
    }

    /// The gray with all three components `g`
    pub fn gray(g: u8) -> (c: Self)
        ensures
            c == (Rgb8 { r: g, g, b: g }),
    {
        Self::new(g, g, g)
    }

    /// The components from the first three bytes
    pub fn from_slice(v: &[u8]) -> (c: Self)
        requires
            v@.len() >= 3,
        ensures
            c == (Rgb8 { r: v@[0], g: v@[1], b: v@[2] }),
    {
        Rgb8 { r: v[0], g: v[1], b: v[2] }
    }
}

impl Rgba8pre {
    pub fn new(r: u8, g: u8, b: u8, a: u8) -> (c: Self)
        ensures
            c == (Rgba8pre { r, g, b, a }),
    {
        Self { r, g, b, a }
    }
}

impl Srgba8 {
    /// Create a new Srgba8 color
    pub fn new(r: u8, g: u8, b: u8, a: u8) -> (c: Self)
        ensures
            c.components() == (r, g, b, a),
    {
        Self { r, g, b, a }
    }

    /// The stored components, red, green, blue and alpha
    pub closed spec fn components(&self) -> (u8, u8, u8, u8) {
        (self.r, self.g, self.b, self.a)
    }

    /// Two colors are the same exactly when their stored components are
    pub proof fn lemma_components_identify(a: Srgba8, b: Srgba8)
        ensures
            (a == b) <==> (a.components() == b.components()),
    {
    }
}

/// Premultiplying scales every component alike: each is `c * a / 255`
/// rounded to the nearest integer, whatever the alpha
pub proof fn lemma_premultiply_uniform(c: Rgba8)
    ensures
        premul(c.r, c.a) == mul_div255(c.r as int, c.a as int),
        premul(c.g, c.a) == mul_div255(c.g as int, c.a as int),
        premul(c.b, c.a) == mul_div255(c.b as int, c.a as int),
{
    assert forall|x: u8| #![auto] premul(x, c.a) == mul_div255(x as int, c.a as int) by {
        let xi = x as int;
        if c.a == 255 {
            assert((2 * xi * 255 + 255) / 510 == xi) by (nonlinear_arith)
                requires 0 <= xi < 256;
        } else if c.a == 0 {
            assert((2 * xi * 0 + 255) / 510 == 0) by (nonlinear_arith);
        } else {
            assert(0 <= (2 * xi * c.a + 255) / 510 < 256) by (nonlinear_arith)
                requires 0 <= xi < 256, 0 < c.a < 255;
        }
    }
}

impl Color for Rgba8 {
    open spec fn rgba(&self) -> (u8, u8, u8, u8) {
        (self.r, self.g, self.b, self.a)
    }

    open spec fn premultiplied() -> bool {
        false
    }

    fn red8(&self) -> (r: u8) {
        self.r
    }

    fn green8(&self) -> (r: u8) {
        self.g
    }

    fn blue8(&self) -> (r: u8) {
        self.b
    }

    fn alpha8(&self) -> (r: u8) {
        self.a
    }

    fn is_premultiplied(&self) -> (r: bool) {
        false
    }
}

impl Color for Rgb8 {
    open spec fn rgba(&self) -> (u8, u8, u8, u8) {
        (self.r, self.g, self.b, 255)
    }

    open spec fn premultiplied() -> bool {
        false
    }

    fn red8(&self) -> (r: u8) {
        self.r
    }

    fn green8(&self) -> (r: u8) {
        self.g
    }

    fn blue8(&self) -> (r: u8) {
        self.b
    }

    fn alpha8(&self) -> (r: u8) {
        255
    }

    fn is_premultiplied(&self) -> (r: bool) {
        false
    }
}

impl Color for Rgba8pre {
    open spec fn rgba(&self) -> (u8, u8, u8, u8) {
        (self.r, self.g, self.b, self.a)
    }

    open spec fn premultiplied() -> bool {
        true
    }

    fn red8(&self) -> (r: u8) {
        self.r
    }

    fn green8(&self) -> (r: u8) {
        self.g
    }

    fn blue8(&self) -> (r: u8) {
        self.b
    }

    fn alpha8(&self) -> (r: u8) {
        self.a
    }

    fn is_premultiplied(&self) -> (r: bool) {
        true
    }

    fn is_transparent(&self) -> (r: bool) {
        self.a == 0
    }
}

impl Color for Gray8 {
    open spec fn rgba(&self) -> (u8, u8, u8, u8) {
        (self.value, self.value, self.value, self.alpha)
    }

    open spec fn premultiplied() -> bool {
        false
    }

    fn red8(&self) -> (r: u8) {
        self.value
    }

    fn green8(&self) -> (r: u8) {
        self.value
    }

    fn blue8(&self) -> (r: u8) {
        self.value
    }

    fn alpha8(&self) -> (r: u8) {
        self.alpha
    }

    fn is_premultiplied(&self) -> (r: bool) {
        false
    }
}

} // verus!
