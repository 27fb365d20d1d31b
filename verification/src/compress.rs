//! Byte-budget image compression.
//!
//! The finished raster is encoded to PNG in memory to measure its byte size.
//! If it fits the budget (or cannot be encoded) it is returned unchanged.
//! Otherwise a single linear rescale is performed: the scale factor is
//! `sqrt(target / actual)` times a conservative 9/10 margin, computed here in
//! exact integer arithmetic as `9 * d * sqrt_floor(target * actual)` divided
//! by `10 * actual` for each dimension `d`, floored and clamped to at least
//! one pixel. No second size check follows the resize; overshoot is accepted.

use vstd::prelude::*;

verus! {

/// An RGBA raster held for compositing and compression. The pixel buffer is
/// the `image` crate's `RgbaImage`; it is opaque here and spoken of only
/// through `img_wd`, `img_ht` and `png_size_of`.
#[verifier::external_body]
pub struct Raster {
    inner: image::RgbaImage,
}

/// The width a raster was created with.
pub uninterp spec fn img_wd(img: Raster) -> nat;

/// The height a raster was created with.
pub uninterp spec fn img_ht(img: Raster) -> nat;

/// The byte length of the raster's PNG encoding; the encoder is
/// deterministic, so this is a function of the raster alone.
pub uninterp spec fn png_size_of(img: Raster) -> nat;

/// Relies on `ImageBuffer::from_raw`: succeeds when the buffer holds at
/// least `4 * width * height` bytes (and that size is addressable), and then
/// stores the given dimensions.
#[verifier::external_body]
pub fn raster_from_parts(width: u32, height: u32, data: Vec<u8>) -> (r: Option<Raster>)
    ensures
        r is Some ==> img_wd(r->0) == width && img_ht(r->0) == height,
{
    match image::RgbaImage::from_raw(width, height, data) {
        Some(img) => Some(Raster { inner: img }),
        None => None,
    }
}

/// Relies on `ImageBuffer::dimensions` and `into_raw`: hands back the stored
/// width and height and the underlying byte buffer.
#[verifier::external_body]
pub fn raster_into_parts(img: Raster) -> (r: (u32, u32, Vec<u8>))
    ensures
        r.0 == img_wd(img),
        r.1 == img_ht(img),
{
    let (w, h) = img.inner.dimensions();
    (w, h, img.inner.into_raw())
}

/// Relies on `ImageBuffer::dimensions`: returns the stored width and height.
#[verifier::external_body]
fn image_dimensions(img: &Raster) -> (r: (u32, u32))
    ensures
        r.0 == img_wd(*img),
        r.1 == img_ht(*img),
{
    img.inner.dimensions()
}

/// Relies on `ImageBuffer::write_to` with `ImageFormat::Png`: on success the
/// buffer holds the PNG encoding of the raster, whose length depends on the
/// raster alone. Success is owed whenever both dimensions are nonzero:
/// writing to an in-memory buffer cannot fail, and the PNG encoder rejects
/// only a zero width or height (RGBA bytes are always a valid combination).
#[verifier::external_body]
fn encode_png(img: &Raster) -> (r: Option<Vec<u8>>)
    ensures
        r is Some ==> r->0@.len() == png_size_of(*img),
        img_wd(*img) >= 1 && img_ht(*img) >= 1 ==> r is Some,
{
    let mut buf: Vec<u8> = Vec::new();
    match img.inner.write_to(&mut std::io::Cursor::new(&mut buf), image::ImageFormat::Png) {
        Ok(()) => Some(buf),
        Err(_) => None,
    }
}

/// Relies on `image::imageops::resize`: the result always has exactly the
/// requested dimensions.
#[verifier::external_body]
fn resize_image(img: &Raster, w: u32, h: u32) -> (r: Raster)
    ensures
        img_wd(r) == w,
        img_ht(r) == h,
{
    Raster { inner: image::imageops::resize(&img.inner, w, h, image::imageops::FilterType::Lanczos3) }
}

/// The integer square root: the largest `r` with `r * r <= n`.
pub open spec fn sqrt_floor(n: nat) -> nat
    decreases n,
{
    if n == 0 {
        0
    } else {
        let r = sqrt_floor((n - 1) as nat);
        if (r + 1) * (r + 1) <= n {
            r + 1
        } else {
            r
        }
    }
}

/// `sqrt_floor` is the integer square root.
pub proof fn lemma_sqrt_floor_bounds(n: nat)
    ensures
        sqrt_floor(n) * sqrt_floor(n) <= n,
        n < (sqrt_floor(n) + 1) * (sqrt_floor(n) + 1),
    decreases n,
{
    if n > 0 {
        lemma_sqrt_floor_bounds((n - 1) as nat);
        let r = sqrt_floor((n - 1) as nat);
        if (r + 1) * (r + 1) <= n {
            assert(sqrt_floor(n) == r + 1);
            assert(n < (r + 2) * (r + 2)) by (nonlinear_arith)
                requires
                    n - 1 < (r + 1) * (r + 1),
                    n >= 0,
                    r >= 0,
            ;
        } else {
            assert(sqrt_floor(n) == r);
        }
    } else {
        assert(sqrt_floor(n) == 0);
        assert((sqrt_floor(n) + 1) * (sqrt_floor(n) + 1) == 1) by (nonlinear_arith)
            requires
                sqrt_floor(n) == 0,
        ;
    }
}

/// Any `r` with `r^2 <= n < (r+1)^2` is the integer square root.
proof fn lemma_sqrt_unique(n: nat, r: nat)
    requires
        r * r <= n,
        n < (r + 1) * (r + 1),
    ensures
        r == sqrt_floor(n),
{
    lemma_sqrt_floor_bounds(n);
    let s = sqrt_floor(n);
    assert(!(r < s) && !(s < r)) by (nonlinear_arith)
        requires
            r * r <= n,
            n < (r + 1) * (r + 1),
            s * s <= n,
            n < (s + 1) * (s + 1),
    ;
}

/// The integer square root, by bisection.
fn isqrt(n: u128) -> (r: u128)
    ensures
        r == sqrt_floor(n as nat),
{
    let mut lo: u128 = 0;
    let mut hi: u128 = 0x10000000000000000;
    while lo + 1 < hi
        invariant
            lo < hi,
            hi <= 0x10000000000000000,
            (lo as int) * (lo as int) <= n,
            (n as int) < (hi as int) * (hi as int),
        decreases hi - lo,
    {
        let mid = lo + (hi - lo) / 2;
        proof {
            assert((mid as int) * (mid as int) < 0x100000000000000000000000000000000int)
                by (nonlinear_arith)
                requires
                    mid < 0x10000000000000000,
            ;
        }
        if mid * mid <= n {
            lo = mid;
        } else {
            hi = mid;
        }
    }
    proof {
        lemma_sqrt_unique(n as nat, lo as nat);
    }
    lo
}

/// One dimension scaled by `sqrt(target / actual) * 9 / 10`, floored, at
/// least one pixel.
pub open spec fn scaled_dim(d: nat, target: nat, actual: nat) -> nat {
    let v = (9 * d * sqrt_floor(target * actual)) as int / (10 * actual) as int;
    if v < 1 {
        1
    } else {
        v as nat
    }
}

/// Dimensions after the conservative single rescale.
pub fn resize_dimensions(w: u32, h: u32, target: usize, actual: usize) -> (r: (u32, u32))
    requires
        target < actual,
    ensures
        r.0 == scaled_dim(w as nat, target as nat, actual as nat),
        r.1 == scaled_dim(h as nat, target as nat, actual as nat),
        1 <= r.0,
        1 <= r.1,
{
    proof {
        assert((target as int) * (actual as int) <= 0xffffffffffffffffffffffffffffffffint)
            by (nonlinear_arith)
            requires
                0 <= target <= 0xffffffffffffffffu64,
                0 <= actual <= 0xffffffffffffffffu64,
        ;
    }
    let s = isqrt((target as u128) * (actual as u128));
    proof {
        lemma_sqrt_floor_bounds((target * actual) as nat);
        assert((s as int) < (actual as int)) by (nonlinear_arith)
            requires
                (s as int) * (s as int) <= (target as int) * (actual as int),
                0 <= target < actual,
        ;
    }
    let nw = scale_one(w, s, actual);
    let nh = scale_one(h, s, actual);
    (nw, nh)
}

/// Scale one dimension by `9 * s / (10 * actual)`, floored, at least 1.
fn scale_one(d: u32, s: u128, actual: usize) -> (r: u32)
    requires
        1 <= actual,
        s < actual as u128,
    ensures
        r == ({
            let v = (9 * (d as int) * (s as int)) / (10 * (actual as int));
            if v < 1 {
                1nat
            } else {
                v as nat
            }
        }),
        1 <= r,
{
    proof {
        assert(s <= 0xffffffffffffffffu128) by (nonlinear_arith)
            requires
                s < actual as u128,
                actual <= 0xffffffffffffffffu64,
        ;
        assert(9 * (d as int) * (s as int) < 0xffffffffffffffffffffffffffffffffint)
            by (nonlinear_arith)
            requires
                0 <= d <= 0xffffffffu32,
                0 <= s <= 0xffffffffffffffffu128,
        ;
    }
    let num: u128 = 9 * (d as u128) * s;
    let den: u128 = 10 * (actual as u128);
    let v = num / den;
    proof {
        assert(v <= d) by (nonlinear_arith)
            requires
                v == (9 * (d as int) * (s as int)) / (10 * (actual as int)),
                0 <= d,
                0 <= s,
                1 <= actual,
                (s as int) < (actual as int),
        ;
    }
    if v < 1 {
        1
    } else {
        v as u32
    }
}

/// The whole-kilobyte budget in bytes, saturating at the machine's limit.
pub fn target_bytes(max_size_kb: usize) -> (r: usize)
    ensures
        max_size_kb > usize::MAX / 1024 ==> r == usize::MAX,
        max_size_kb <= usize::MAX / 1024 ==> r == max_size_kb * 1024,
{
    if max_size_kb > usize::MAX / 1024 {
        usize::MAX
    } else {
        max_size_kb * 1024
    }
}

/// The compression decision for a kilobyte budget: a budget of 0 disables
/// compression altogether, any other becomes a byte target.
pub fn compression_target(max_size_kb: usize) -> (r: Option<usize>)
    ensures
        max_size_kb == 0 ==> r is None,
        max_size_kb > 0 ==> r is Some,
        r is Some ==> r->0 == (if max_size_kb > usize::MAX / 1024 {
            usize::MAX as int
        } else {
            max_size_kb * 1024
        }),
{
    if max_size_kb == 0 {
        Option::None
    } else {
        Option::Some(target_bytes(max_size_kb))
    }
}

/// Constrain the finished raster to `target_size_bytes` of PNG: a raster that
/// already fits (or cannot be encoded) comes back unchanged; anything larger
/// is rescaled once by the conservative square-root factor.
pub fn compress_image(img: Raster, target_size_bytes: usize) -> (r: Raster)
    ensures
        png_size_of(img) <= target_size_bytes ==> r == img,
        img_wd(img) >= 1 && img_ht(img) >= 1 && png_size_of(img) > target_size_bytes ==> {
            &&& img_wd(r) == scaled_dim(img_wd(img), target_size_bytes as nat, png_size_of(img))
            &&& img_ht(r) == scaled_dim(img_ht(img), target_size_bytes as nat, png_size_of(img))
        },
        r == img || (png_size_of(img) > target_size_bytes && img_wd(r) == scaled_dim(
            img_wd(img),
            target_size_bytes as nat,
            png_size_of(img),
        ) && img_ht(r) == scaled_dim(
            img_ht(img),
            target_size_bytes as nat,
            png_size_of(img),
        )),
{
    let dims = image_dimensions(&img);
    let encoded = encode_png(&img);
    match encoded {
        Option::None => img,
        Option::Some(buf) => {
            let actual = buf.len();
            if actual <= target_size_bytes {
                img
            } else {
                let nd = resize_dimensions(dims.0, dims.1, target_size_bytes, actual);
                resize_image(&img, nd.0, nd.1)
            }
        },
    }
}

} // verus!
