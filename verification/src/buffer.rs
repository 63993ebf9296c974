//! Rendering buffer

use vstd::prelude::*;

verus! {

/// Rendering Buffer
///
/// Data is stored as row-major order (C-format)
#[derive(Debug)]
pub struct RenderingBuffer {
    /// Pixel / Component level data of Image
    pub data: Vec<u8>,
    /// Image Width in pixels
    pub width: usize,
    /// Image Height in pixels
    pub height: usize,
    /// Bytes per pixel or number of color components
    pub bpp: usize,
}

/// Offset of the first byte of pixel (`x`,`y`) in a row-major image
pub open spec fn pixel_offset(x: int, y: int, width: int, bpp: int) -> int {
    (y * width + x) * bpp
}

/// Offsets of every pixel of a `width` by `height` image lie inside it
pub proof fn lemma_pixel_offset(x: int, y: int, width: int, height: int, bpp: int)
    requires
        0 <= x < width,
        0 <= y < height,
        bpp >= 0,
    ensures
        0 <= pixel_offset(x, y, width, bpp),
        pixel_offset(x, y, width, bpp) + bpp <= width * height * bpp,
        0 <= y * width <= y * width + x,
        bpp >= 1 ==> y * width + x <= pixel_offset(x, y, width, bpp),
{
    assert(0 <= y * width) by (nonlinear_arith) requires 0 <= y, 0 <= width;
    assert(bpp >= 1 ==> y * width + x <= (y * width + x) * bpp) by (nonlinear_arith)
        requires 0 <= y * width + x;
    assert(y * width + x + 1 <= width * height) by (nonlinear_arith)
        requires 0 <= x < width, 0 <= y < height;
    assert(0 <= (y * width + x) * bpp) by (nonlinear_arith)
        requires 0 <= x, 0 <= y, 0 <= width, bpp >= 0;
    assert((y * width + x) * bpp + bpp <= width * height * bpp) by (nonlinear_arith)
        requires y * width + x + 1 <= width * height, bpp >= 0;
}

impl RenderingBuffer {
    /// The data holds `bpp` bytes for each of the `width * height` pixels
    pub open spec fn wf(&self) -> bool {
        self.data@.len() == self.width * self.height * self.bpp
    }

    /// Offset of the first byte of pixel (`x`,`y`)
    pub open spec fn offset(&self, x: int, y: int) -> int {
        pixel_offset(x, y, self.width as int, self.bpp as int)
    }

    /// The bytes of pixel (`x`,`y`)
    pub open spec fn pixel_at(&self, x: int, y: int) -> Seq<u8> {
        pixel_of(self.data@, self.width as int, self.bpp as int, x, y)
    }

    /// Create a new buffer of width, height, and bpp
    ///
    /// Data for the Image is allocated, all zero
    pub fn new(width: usize, height: usize, bpp: usize) -> (s: Self)
        requires
            width * height <= usize::MAX,
            width * height * bpp <= usize::MAX,
        ensures
            s.wf(),
            s.width == width && s.height == height && s.bpp == bpp,
            forall|i: int| 0 <= i < s.data@.len() ==> #[trigger] s.data@[i] == 0,
    {
        RenderingBuffer { width, height, bpp, data: vec![0u8; width * height * bpp] }
    }

    /// Size of underlying Rendering Buffer
    pub fn len(&self) -> (r: usize)
        ensures
            r == self.data@.len(),
    {
        self.data.len()
    }

    /// Clear an image: every byte becomes 255
    pub fn clear(&mut self)
        ensures
            final(self).data@.len() == old(self).data@.len(),
            final(self).width == old(self).width,
            final(self).height == old(self).height,
            final(self).bpp == old(self).bpp,
            forall|i: int| 0 <= i < final(self).data@.len() ==> #[trigger] final(self).data@[i] == 255,
    {
        let n = self.data.len();
        let mut i: usize = 0;
        while i < n
            invariant
                i <= n,
                n == self.data@.len(),
                n == old(self).data@.len(),
                self.width == old(self).width,
                self.height == old(self).height,
                self.bpp == old(self).bpp,
                forall|j: int| 0 <= j < i ==> #[trigger] self.data@[j] == 255,
            decreases n - i,
        {
            self.data.set(i, 255);
            i += 1;
        }
    }

    /// A buffer over `data`, which holds `bpp` bytes for each pixel
    pub fn from_buf(data: Vec<u8>, width: usize, height: usize, bpp: usize) -> (s: Self)
        requires
            data@.len() == width * height * bpp,
        ensures
            s.wf(),
            s.data@ == data@,
            s.width == width && s.height == height && s.bpp == bpp,
    {
        RenderingBuffer { width, height, bpp, data }
    }

    /// The bytes from pixel `id` to the end of the image
    pub fn pixel(&self, id: (usize, usize)) -> (r: &[u8])
        requires
            self.wf(),
            id.0 < self.width,
            id.1 < self.height,
            self.bpp > 0,
        ensures
            r@ == self.data@.subrange(self.offset(id.0 as int, id.1 as int), self.data@.len() as int),
    {
        proof {
            lemma_pixel_offset(id.0 as int, id.1 as int, self.width as int, self.height as int,
                self.bpp as int);
        }
        let n: usize = self.data.len();
        let i: usize = ((id.1 * self.width) + id.0) * self.bpp;
        vstd::slice::slice_subrange(self.data.as_slice(), i, n)
    }

    /// Set byte `k` of pixel `id` to `v`
    pub fn set_component(&mut self, id: (usize, usize), k: usize, v: u8)
        requires
            old(self).wf(),
            id.0 < old(self).width,
            id.1 < old(self).height,
            k < old(self).bpp,
        ensures
            final(self).wf(),
            final(self).width == old(self).width,
            final(self).height == old(self).height,
            final(self).bpp == old(self).bpp,
            final(self).data@ == old(self).data@.update(
                old(self).offset(id.0 as int, id.1 as int) + k, v),
    {
        proof {
            lemma_pixel_offset(id.0 as int, id.1 as int, self.width as int, self.height as int,
                self.bpp as int);
        }
        let n: usize = self.data.len();
        let i: usize = ((id.1 * self.width) + id.0) * self.bpp;
        assert(i + k < n);
        self.data.set(i + k, v);
    }
}

} // verus!

verus! {

/// `data` with the bytes from `off` on replaced by `px`
pub open spec fn put(data: Seq<u8>, off: int, px: Seq<u8>) -> Seq<u8> {
    Seq::new(data.len(), |i: int| if off <= i < off + px.len() { px[i - off] } else { data[i] })
}

/// The `bpp` bytes of pixel (`x`,`y`) of a row-major image of `width` pixels a row
pub open spec fn pixel_of(data: Seq<u8>, width: int, bpp: int, x: int, y: int) -> Seq<u8> {
    data.subrange(pixel_offset(x, y, width, bpp), pixel_offset(x, y, width, bpp) + bpp)
}

/// Writing one pixel changes that pixel, to what was written, and no other
pub proof fn lemma_put_pixel(data: Seq<u8>, width: int, height: int, bpp: int,
                             qx: int, qy: int, v: Seq<u8>, px: int, py: int)
    requires
        data.len() == width * height * bpp,
        bpp >= 1,
        0 <= qx < width, 0 <= qy < height,
        0 <= px < width, 0 <= py < height,
        v.len() == bpp,
    ensures
        put(data, pixel_offset(qx, qy, width, bpp), v).len() == data.len(),
        pixel_of(put(data, pixel_offset(qx, qy, width, bpp), v), width, bpp, px, py)
            == (if px == qx && py == qy { v } else { pixel_of(data, width, bpp, px, py) }),
{
    lemma_pixel_offset(qx, qy, width, height, bpp);
    lemma_pixel_offset(px, py, width, height, bpp);
    let oq = pixel_offset(qx, qy, width, bpp);
    let op = pixel_offset(px, py, width, bpp);
    let nd = put(data, oq, v);
    if px == qx && py == qy {
        assert(pixel_of(nd, width, bpp, px, py) =~= v);
    } else {
        let kq = qy * width + qx;
        let kp = py * width + px;
        assert(kq != kp) by {
            if kq == kp {
                if py < qy {
                    assert(py * width + width <= qy * width) by (nonlinear_arith)
                        requires py < qy, width >= 0;
                } else if py > qy {
                    assert(qy * width + width <= py * width) by (nonlinear_arith)
                        requires qy < py, width >= 0;
                }
            }
        }
        assert(op + bpp <= oq || oq + bpp <= op) by {
            if kp < kq {
                assert(kp * bpp + bpp <= kq * bpp) by (nonlinear_arith) requires kp < kq, bpp >= 1;
            } else {
                assert(kq * bpp + bpp <= kp * bpp) by (nonlinear_arith) requires kq < kp, bpp >= 1;
            }
        }
        assert(pixel_of(nd, width, bpp, px, py) =~= pixel_of(data, width, bpp, px, py));
    }
}

/// An image is the sum of its pixels: two images of the same size whose
/// pixels all agree hold the same bytes
pub proof fn lemma_pixels_determine(a: Seq<u8>, b: Seq<u8>, width: int, height: int, bpp: int)
    requires
        a.len() == width * height * bpp,
        b.len() == width * height * bpp,
        bpp >= 1,
        width >= 0,
        height >= 0,
        forall|x: int, y: int| 0 <= x < width && 0 <= y < height ==>
            #[trigger] pixel_of(a, width, bpp, x, y) == pixel_of(b, width, bpp, x, y),
    ensures
        a == b,
{
    assert forall|i: int| 0 <= i < a.len() implies a[i] == b[i] by {
        let k = i / bpp;
        let r = i % bpp;
        let y = k / width;
        let x = k % width;
        assert(0 <= r < bpp && i == k * bpp + r) by (nonlinear_arith) requires bpp >= 1, k == i / bpp, r == i % bpp;
        assert(k < width * height) by (nonlinear_arith)
            requires i == k * bpp + r, 0 <= r < bpp, i < width * height * bpp, bpp >= 1;
        assert(width > 0) by (nonlinear_arith) requires k < width * height, 0 <= k, height >= 0, width >= 0;
        assert(0 <= x < width && k == y * width + x) by (nonlinear_arith)
            requires width > 0, y == k / width, x == k % width, k >= 0;
        assert(0 <= y < height) by (nonlinear_arith)
            requires k == y * width + x, 0 <= x < width, k < width * height, k >= 0, width > 0;
        assert(pixel_offset(x, y, width, bpp) == k * bpp);
        lemma_pixel_offset(x, y, width, height, bpp);
        assert(pixel_of(a, width, bpp, x, y)[r] == a[i]);
        assert(pixel_of(b, width, bpp, x, y)[r] == b[i]);
    }
    assert(a =~= b);
}

} // verus!
