//! The computing parts of reading, writing and comparing images: the bytes
//! of a PPM (Portable Pixmap Format) file and the comparison of two images
//!
//! See <https://en.wikipedia.org/wiki/Netpbm_format#PPM_example>

use vstd::prelude::*;

verus! {

/// The decimal digits of `n`, most significant first, as ASCII
pub open spec fn decimal(n: nat) -> Seq<u8>
    decreases n,
{
    if n < 10 {
        seq![(48 + n) as u8]
    } else {
        decimal(n / 10).push((48 + n % 10) as u8)
    }
}

/// Append the decimal digits of `n` to `out`
fn push_decimal(out: &mut Vec<u8>, n: usize)
    ensures
        final(out)@ == old(out)@ + decimal(n as nat),
    decreases n,
{
    if n < 10 {
        out.push((48 + n) as u8);
        assert(decimal(n as nat) =~= seq![(48 + n) as u8]);
    } else {
        push_decimal(out, n / 10);
        out.push((48 + n % 10) as u8);
    }
}

/// The header of a binary PPM file: `P6`, the width, the height and the
/// largest value, 255, each followed by a space
pub open spec fn ppm_header_spec(width: nat, height: nat) -> Seq<u8> {
    seq![80u8, 54u8, 32u8] + decimal(width) + seq![32u8] + decimal(height) + seq![32u8, 50u8, 53u8, 53u8, 32u8]
}

/// The header of a binary PPM file of `width` by `height` pixels
pub fn ppm_header(width: usize, height: usize) -> (r: Vec<u8>)
    ensures
        r@ == ppm_header_spec(width as nat, height as nat),
{
    let mut out: Vec<u8> = Vec::new();
    out.push(80);
    out.push(54);
    out.push(32);
    push_decimal(&mut out, width);
    out.push(32);
    push_decimal(&mut out, height);
    out.push(32);
    out.push(50);
    out.push(53);
    out.push(53);
    out.push(32);
    assert(out@ =~= ppm_header_spec(width as nat, height as nat));
    out
}

/// The bytes of a binary PPM file: the header, then the RGB data in
/// row-major order
pub fn ppm_bytes(buf: &[u8], width: usize, height: usize) -> (r: Vec<u8>)
    ensures
        r@ == ppm_header_spec(width as nat, height as nat) + buf@,
{
    let mut out = ppm_header(width, height);
    let ghost head = out@;
    let n = buf.len();
    let mut i: usize = 0;
    while i < n
        invariant
            0 <= i <= n,
            n == buf@.len(),
            head == ppm_header_spec(width as nat, height as nat),
            out@ == head + buf@.subrange(0, i as int),
        decreases n - i,
    {
        out.push(buf[i]);
        i += 1;
        assert(out@ =~= head + buf@.subrange(0, i as int));
    }
    assert(buf@.subrange(0, n as int) =~= buf@);
    out
}

/// The first position, among those both byte strings have, where they differ
pub fn first_difference(d1: &[u8], d2: &[u8]) -> (r: Option<usize>)
    ensures
        match r {
            Some(i) => {
                &&& i < d1@.len() && i < d2@.len()
                &&& d1@[i as int] != d2@[i as int]
                &&& forall|j: int| 0 <= j < i ==> d1@[j] == d2@[j]
            },
            None => forall|j: int| 0 <= j < d1@.len() && j < d2@.len() ==> d1@[j] == d2@[j],
        },
{
    let n = if d1.len() < d2.len() { d1.len() } else { d2.len() };
    let mut i: usize = 0;
    while i < n
        invariant
            0 <= i <= n,
            n <= d1@.len() && n <= d2@.len(),
            n == d1@.len() || n == d2@.len(),
            forall|j: int| 0 <= j < i ==> d1@[j] == d2@[j],
        decreases n - i,
    {
        if d1[i] != d2[i] {
            return Some(i);
        }
        i += 1;
    }
    None
}

/// Whether two images, each given by its bytes and size, are the same: the
/// same size and the same bytes wherever both have one
pub fn same_image(d1: &[u8], w1: usize, h1: usize, d2: &[u8], w2: usize, h2: usize) -> (r: bool)
    ensures
        r == (w1 == w2 && h1 == h2
            && forall|j: int| 0 <= j < d1@.len() && j < d2@.len() ==> d1@[j] == d2@[j]),
{
    if w1 != w2 || h1 != h2 {
        return false;
    }
    match first_difference(d1, d2) {
        Some(i) => {
            assert(!(forall|j: int| 0 <= j < d1@.len() && j < d2@.len() ==> d1@[j] == d2@[j]));
            false
        },
        None => true,
    }
}

} // verus!
