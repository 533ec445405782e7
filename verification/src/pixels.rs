//! Conversion of decoded model-embedded images to 8-bit RGBA.
use vstd::prelude::*;

verus! {

/// Pixel layout of a decoded model-embedded image.
#[derive(Clone, Copy, Debug, PartialEq, Eq, Structural)]
pub enum PixelFormat {
    R8,
    R8G8,
    R8G8B8,
    R8G8B8A8,
    R16,
    R16G16,
    R16G16B16,
    R16G16B16A16,
    R32G32B32Float,
    R32G32B32A32Float,
}

/// Bytes per pixel read by the conversion (layouts without a conversion of
/// their own are read byte by byte, as luminance).
pub open spec fn chunk_len(f: PixelFormat) -> nat {
    match f {
        PixelFormat::R8G8B8 => 3,
        PixelFormat::R8G8B8A8 => 4,
        PixelFormat::R16G16 => 4,
        PixelFormat::R16G16B16 => 6,
        PixelFormat::R16G16B16A16 => 8,
        _ => 1,
    }
}

/// Pixel data the conversion can read: a trailing partial pixel is only
/// allowed where the bytes it reads are present (3 of 4 for two 16-bit
/// channels).
pub open spec fn readable(f: PixelFormat, len: nat) -> bool {
    match f {
        PixelFormat::R8G8B8 => len % 3 == 0,
        PixelFormat::R16G16 => len % 4 == 0 || len % 4 == 3,
        PixelFormat::R16G16B16 => len % 6 == 0,
        PixelFormat::R16G16B16A16 => len % 8 == 0,
        _ => true,
    }
}

/// Number of pixels read from `len` bytes.
pub open spec fn pixel_count(f: PixelFormat, len: nat) -> nat {
    ((len + chunk_len(f) - 1) / (chunk_len(f) as int)) as nat
}

/// Channel `j` (R, G, B, A) of pixel `i`: 8-bit channels are copied,
/// 16-bit channels keep their high byte (low byte for two channels),
/// missing channels are 0 (blue) or opaque (alpha), luminance is
/// replicated.
pub open spec fn rgba_byte(f: PixelFormat, p: Seq<u8>, i: int, j: int) -> u8 {
    match f {
        PixelFormat::R8G8B8A8 => p[4 * i + j],
        PixelFormat::R8G8B8 => if j < 3 { p[3 * i + j] } else { 255 },
        PixelFormat::R16G16 => if j == 0 {
            p[4 * i]
        } else if j == 1 {
            p[4 * i + 2]
        } else if j == 2 {
            0
        } else {
            255
        },
        PixelFormat::R16G16B16 => if j < 3 { p[6 * i + 2 * j + 1] } else { 255 },
        PixelFormat::R16G16B16A16 => p[8 * i + 2 * j + 1],
        _ => if j < 3 { p[i] } else { 255 },
    }
}

fn chunk_rgba(f: PixelFormat, p: &[u8], s: usize) -> (r: [u8; 4])
    requires
        s + (if f == PixelFormat::R16G16 { 3nat } else { chunk_len(f) }) <= p@.len(),
        (s as nat) % chunk_len(f) == 0,
    ensures
        forall|j: int| 0 <= j < 4 ==> r@[j] == rgba_byte(f, p@, (s as int) / (chunk_len(f) as int), j),
{
    let ghost i = (s as int) / (chunk_len(f) as int);
    match f {
        PixelFormat::R8G8B8A8 => {
            assert(s == 4 * i);
            [p[s], p[s + 1], p[s + 2], p[s + 3]]
        },
        PixelFormat::R8G8B8 => {
            assert(s == 3 * i);
            [p[s], p[s + 1], p[s + 2], 255]
        },
        PixelFormat::R16G16 => {
            assert(s == 4 * i);
            [p[s], p[s + 2], 0, 255]
        },
        PixelFormat::R16G16B16 => {
            assert(s == 6 * i);
            [p[s + 1], p[s + 3], p[s + 5], 255]
        },
        PixelFormat::R16G16B16A16 => {
            assert(s == 8 * i);
            let r = u16_high(p[s], p[s + 1]);
            let g = u16_high(p[s + 2], p[s + 3]);
            let b = u16_high(p[s + 4], p[s + 5]);
            let a = u16_high(p[s + 6], p[s + 7]);
            [r, g, b, a]
        },
        _ => {
            assert(s == i);
            [p[s], p[s], p[s], 255]
        },
    }
}

/// The high byte of the little-endian 16-bit value `lo, hi`.
fn u16_high(lo: u8, hi: u8) -> (r: u8)
    ensures
        r == hi,
{
    let v: u16 = (lo as u16) | ((hi as u16) << 8u16);
    let r = (v >> 8u16) as u8;
    assert(r == hi) by (bit_vector)
        requires
            v == (lo as u16) | ((hi as u16) << 8u16),
            r == (v >> 8u16) as u8,
    ;
    r
}

/// Decoded image pixels as 8-bit RGBA.
pub fn image_to_rgba(format: PixelFormat, pixels: &[u8]) -> (r: Vec<u8>)
    requires
        readable(format, pixels@.len()),
        pixels@.len() < usize::MAX,
    ensures
        format == PixelFormat::R8G8B8A8 ==> r@ == pixels@,
        format != PixelFormat::R8G8B8A8 ==> r@.len() == 4 * pixel_count(format, pixels@.len()),
        format != PixelFormat::R8G8B8A8 ==> forall|i: int, j: int|
            0 <= i < pixel_count(format, pixels@.len()) && 0 <= j < 4 ==> #[trigger] r@[4 * i + j]
                == rgba_byte(format, pixels@, i, j),
{
    if format == PixelFormat::R8G8B8A8 {
        let mut copy: Vec<u8> = Vec::new();
        let mut t: usize = 0;
        while t < pixels.len()
            invariant
                t <= pixels@.len(),
                copy@ == pixels@.take(t as int),
            decreases pixels@.len() - t,
        {
            copy.push(pixels[t]);
            proof {
                assert(pixels@.take(t + 1) =~= pixels@.take(t as int).push(pixels@[t as int]));
            }
            t += 1;
        }
        proof {
            assert(pixels@.take(pixels@.len() as int) =~= pixels@);
        }
        return copy;
    }
    let k: usize = match format {
        PixelFormat::R8G8B8 => 3,
        PixelFormat::R16G16 => 4,
        PixelFormat::R16G16B16 => 6,
        PixelFormat::R16G16B16A16 => 8,
        _ => 1,
    };
    let ghost kk = chunk_len(format) as int;
    let n = pixels.len();
    let mut out: Vec<u8> = Vec::new();
    let mut s: usize = 0;
    let ghost mut i: int = 0;
    while s < n
        invariant
            k as int == kk,
            kk == chunk_len(format),
            format != PixelFormat::R8G8B8A8,
            readable(format, pixels@.len()),
            n == pixels@.len(),
            n < usize::MAX,
            1 <= kk <= 8,
            s == kk * i,
            0 <= i,
            s <= n + kk,
            (i - 1) * kk < n || i == 0,
            out@.len() == 4 * i,
            forall|a: int, j: int|
                0 <= a < i && 0 <= j < 4 ==> #[trigger] out@[4 * a + j] == rgba_byte(format, pixels@, a, j),
        decreases n + 8 - s,
    {
        proof {
            assert((s as nat) % chunk_len(format) == 0 && (s as int) / (chunk_len(format) as int) == i) by (nonlinear_arith)
                requires
                    s == kk * i,
                    kk == chunk_len(format),
                    kk >= 1,
                    i >= 0,
            ;
            assert(s + (if format == PixelFormat::R16G16 { 3nat } else { chunk_len(format) }) <= n) by {
                assert(s < n);
                if format == PixelFormat::R8G8B8 {
                    assert((n - s) % 3 == 0) by (nonlinear_arith)
                        requires s == 3 * i, n % 3 == 0, s < n;
                } else if format == PixelFormat::R16G16 {
                    assert((n - s) % 4 == 0 || (n - s) % 4 == 3) by (nonlinear_arith)
                        requires s == 4 * i, n % 4 == 0 || n % 4 == 3, s < n;
                } else if format == PixelFormat::R16G16B16 {
                    assert((n - s) % 6 == 0) by (nonlinear_arith)
                        requires s == 6 * i, n % 6 == 0, s < n;
                } else if format == PixelFormat::R16G16B16A16 {
                    assert((n - s) % 8 == 0) by (nonlinear_arith)
                        requires s == 8 * i, n % 8 == 0, s < n;
                }
            }
        }
        let c = chunk_rgba(format, pixels, s);
        let ghost before = out@;
        out.push(c[0]);
        out.push(c[1]);
        out.push(c[2]);
        out.push(c[3]);
        proof {
            assert forall|a: int, j: int|
                0 <= a < i + 1 && 0 <= j < 4 implies #[trigger] out@[4 * a + j] == rgba_byte(
                format,
                pixels@,
                a,
                j,
            ) by {
                if a < i {
                    assert(out@[4 * a + j] == before[4 * a + j]);
                } else {
                    assert(c@[j] == rgba_byte(format, pixels@, i, j));
                }
            }
            assert(s + k == kk * (i + 1)) by (nonlinear_arith)
                requires s == kk * i, k == kk;
            assert(i * kk < n) by (nonlinear_arith)
                requires s == kk * i, s < n;
            i = i + 1;
        }
        s = s + k;
    }
    proof {
        assert(i == pixel_count(format, n as nat)) by (nonlinear_arith)
            requires
                s == kk * i,
                s >= n,
                (i - 1) * kk < n || i == 0,
                kk >= 1,
                i >= 0,
                pixel_count(format, n as nat) == (n + kk - 1) / kk,
        ;
    }
    out
}

} // verus!
