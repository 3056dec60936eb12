//! Compositing into a page's RGBA8 pixel buffer.
//!
//! A page is `width * height` pixels, row-major, four bytes each (red,
//! green, blue, alpha), origin top-left. Everything drawn here leaves the
//! page opaque: fills, image blits, placeholder frames and glyphs.

use vstd::prelude::*;

use cosmic_text::{CacheKey, FontSystem, SwashCache, SwashContent};

verus! {

/// `cosmic_text::FontSystem`, carried through as an opaque value.
#[verifier::external_type_specification]
#[verifier::external_body]
pub struct ExFontSystem(FontSystem);

/// `cosmic_text::SwashCache`, carried through as an opaque value.
#[verifier::external_type_specification]
#[verifier::external_body]
pub struct ExSwashCache(SwashCache);

/// `cosmic_text::CacheKey`, carried through as an opaque value.
#[verifier::external_type_specification]
#[verifier::external_body]
pub struct ExCacheKey(CacheKey);

/// One rasterized page.
#[derive(Debug, Clone)]
pub struct PageImage {
    /// Width in pixels.
    pub width: u32,
    /// Height in pixels.
    pub height: u32,
    /// Row-major RGBA8 pixels, `width * height * 4` bytes.
    pub pixels: Vec<u8>,
}

/// Offset of the first byte of pixel `(x, y)` in a buffer `w` pixels wide.
pub open spec fn at(x: int, y: int, w: int) -> int {
    (y * w + x) * 4
}

/// Byte `k` of pixel `(x, y)` in the buffer `s`, `w` pixels wide.
pub open spec fn pix(s: Seq<u8>, w: int, x: int, y: int, k: int) -> u8 {
    s[at(x, y, w) + k]
}

/// Component `k` of an RGBA quadruple.
pub open spec fn comp(v: (u8, u8, u8, u8), k: int) -> u8 {
    if k == 0 {
        v.0
    } else if k == 1 {
        v.1
    } else if k == 2 {
        v.2
    } else {
        v.3
    }
}

/// A page whose buffer matches its dimensions, which fit an `i32`.
pub open spec fn image_wf(img: PageImage) -> bool {
    &&& img.pixels@.len() == img.width * img.height * 4
    &&& img.width <= i32::MAX
    &&& img.height <= i32::MAX
}

/// Whether `(x, y, k)` names a byte of a `w` by `h` page.
pub open spec fn on_page(w: int, h: int, x: int, y: int, k: int) -> bool {
    0 <= x < w && 0 <= y < h && 0 <= k < 4
}

proof fn lemma_at_bounds(w: int, h: int, x: int, y: int, k: int)
    requires
        on_page(w, h, x, y, k),
    ensures
        0 <= at(x, y, w) + k < w * h * 4,
        0 <= y * w,
        y * w + x < w * h,
{
    assert(0 <= y * w) by (nonlinear_arith)
        requires
            0 <= y,
            0 <= w,
    ;
    assert(y * w + x < h * w) by (nonlinear_arith)
        requires
            0 <= x < w,
            0 <= y < h,
    ;
    assert(h * w == w * h) by (nonlinear_arith);
}

proof fn lemma_at_inj(w: int, x1: int, y1: int, k1: int, x2: int, y2: int, k2: int)
    requires
        0 <= x1 < w,
        0 <= x2 < w,
        0 <= y1,
        0 <= y2,
        0 <= k1 < 4,
        0 <= k2 < 4,
        at(x1, y1, w) + k1 == at(x2, y2, w) + k2,
    ensures
        x1 == x2,
        y1 == y2,
        k1 == k2,
{
    let a = y1 * w + x1;
    let b = y2 * w + x2;
    assert(a == b && k1 == k2) by (nonlinear_arith)
        requires
            a * 4 + k1 == b * 4 + k2,
            0 <= k1 < 4,
            0 <= k2 < 4,
    ;
    assert(y1 == y2) by (nonlinear_arith)
        requires
            y1 * w + x1 == y2 * w + x2,
            0 <= x1 < w,
            0 <= x2 < w,
            0 <= y1,
            0 <= y2,
    ;
}

/// Overwrite pixel `(px, py)` with `v`.
fn put_pixel(img: &mut PageImage, px: u32, py: u32, v: (u8, u8, u8, u8))
    requires
        image_wf(*old(img)),
        px < old(img).width,
        py < old(img).height,
    ensures
        final(img).width == old(img).width,
        final(img).height == old(img).height,
        image_wf(*final(img)),
        forall|x: int, y: int, k: int|
            on_page(old(img).width as int, old(img).height as int, x, y, k) ==> #[trigger] pix(
                final(img).pixels@,
                old(img).width as int,
                x,
                y,
                k,
            ) == if x == px && y == py {
                comp(v, k)
            } else {
                pix(old(img).pixels@, old(img).width as int, x, y, k)
            },
{
    let ghost w = img.width as int;
    let ghost h = img.height as int;
    let ghost before = img.pixels@;
    proof {
        lemma_at_bounds(w, h, px as int, py as int, 3);
    }
    let len = img.pixels.len();
    let i = ((py as usize) * (img.width as usize) + (px as usize)) * 4;
    img.pixels.set(i, v.0);
    img.pixels.set(i + 1, v.1);
    img.pixels.set(i + 2, v.2);
    img.pixels.set(i + 3, v.3);
    proof {
        assert forall|x: int, y: int, k: int| on_page(w, h, x, y, k) implies #[trigger] pix(
            img.pixels@,
            w,
            x,
            y,
            k,
        ) == if x == px && y == py {
            comp(v, k)
        } else {
            pix(before, w, x, y, k)
        } by {
            lemma_at_bounds(w, h, x, y, k);
            if !(x == px && y == py) {
                if at(x, y, w) + k == at(px as int, py as int, w) + 0 {
                    lemma_at_inj(w, x, y, k, px as int, py as int, 0);
                }
                if at(x, y, w) + k == at(px as int, py as int, w) + 1 {
                    lemma_at_inj(w, x, y, k, px as int, py as int, 1);
                }
                if at(x, y, w) + k == at(px as int, py as int, w) + 2 {
                    lemma_at_inj(w, x, y, k, px as int, py as int, 2);
                }
                if at(x, y, w) + k == at(px as int, py as int, w) + 3 {
                    lemma_at_inj(w, x, y, k, px as int, py as int, 3);
                }
            }
        }
    }
}

/// Read pixel `(px, py)`.
fn get_pixel(img: &PageImage, px: u32, py: u32) -> (r: (u8, u8, u8, u8))
    requires
        image_wf(*img),
        px < img.width,
        py < img.height,
    ensures
        forall|k: int| 0 <= k < 4 ==> comp(r, k) == #[trigger] pix(img.pixels@, img.width as int, px as int, py as int, k),
{
    proof {
        lemma_at_bounds(img.width as int, img.height as int, px as int, py as int, 3);
    }
    let len = img.pixels.len();
    let i = ((py as usize) * (img.width as usize) + (px as usize)) * 4;
    (img.pixels[i], img.pixels[i + 1], img.pixels[i + 2], img.pixels[i + 3])
}

impl PageImage {
    /// A `width` by `height` page of zero bytes.
    pub fn new(width: u32, height: u32) -> (r: PageImage)
        requires
            width * height * 4 <= usize::MAX,
            width <= i32::MAX,
            height <= i32::MAX,
        ensures
            image_wf(r),
            r.width == width,
            r.height == height,
            forall|i: int| 0 <= i < r.pixels@.len() ==> #[trigger] r.pixels@[i] == 0,
    {
        let n = (width as usize) * (height as usize) * 4;
        let mut pixels: Vec<u8> = Vec::new();
        let mut i: usize = 0;
        while i < n
            invariant
                i <= n,
                pixels@.len() == i,
                forall|j: int| 0 <= j < i ==> #[trigger] pixels@[j] == 0,
            decreases n - i,
        {
            pixels.push(0);
            i = i + 1;
        }
        PageImage { width, height, pixels }
    }
}

/// Paint every pixel `color`.
pub fn fill_bg(img: &mut PageImage, color: (u8, u8, u8, u8))
    requires
        image_wf(*old(img)),
    ensures
        image_wf(*final(img)),
        final(img).width == old(img).width,
        final(img).height == old(img).height,
        forall|x: int, y: int, k: int|
            on_page(old(img).width as int, old(img).height as int, x, y, k) ==> #[trigger] pix(
                final(img).pixels@,
                old(img).width as int,
                x,
                y,
                k,
            ) == comp(color, k),
        color.3 == 255 ==> opaque(final(img).pixels@, old(img).width as int, old(img).height as int),
{
    let w = img.width;
    let h = img.height;
    let mut y: u32 = 0;
    while y < h
        invariant
            image_wf(*img),
            img.width == w,
            img.height == h,
            y <= h,
            forall|x: int, yy: int, k: int|
                on_page(w as int, h as int, x, yy, k) && yy < y ==> #[trigger] pix(
                    img.pixels@,
                    w as int,
                    x,
                    yy,
                    k,
                ) == comp(color, k),
        decreases h - y,
    {
        let mut x: u32 = 0;
        while x < w
            invariant
                image_wf(*img),
                img.width == w,
                img.height == h,
                y < h,
                x <= w,
                forall|xx: int, yy: int, k: int|
                    on_page(w as int, h as int, xx, yy, k) && (yy < y || (yy == y && xx < x))
                        ==> #[trigger] pix(img.pixels@, w as int, xx, yy, k) == comp(color, k),
            decreases w - x,
        {
            put_pixel(img, x, y, color);
            x = x + 1;
        }
        y = y + 1;
    }
}

/// A blank `width` by `height` page painted `color`.
pub fn blank_image(width: u32, height: u32, color: (u8, u8, u8, u8)) -> (r: PageImage)
    requires
        width * height * 4 <= usize::MAX,
        width <= i32::MAX,
        height <= i32::MAX,
    ensures
        image_wf(r),
        r.width == width,
        r.height == height,
        forall|x: int, y: int, k: int|
            on_page(width as int, height as int, x, y, k) ==> #[trigger] pix(
                r.pixels@,
                width as int,
                x,
                y,
                k,
            ) == comp(color, k),
{
    let mut img = PageImage::new(width, height);
    fill_bg(&mut img, color);
    img
}

/// Whether every pixel of the `w` by `h` buffer `s` is fully opaque.
pub open spec fn opaque(s: Seq<u8>, w: int, h: int) -> bool {
    forall|x: int, y: int| 0 <= x < w && 0 <= y < h ==> #[trigger] pix(s, w, x, y, 3) == 255
}

/// The four bytes of pixel `(x, y)`.
pub open spec fn pixel(s: Seq<u8>, w: int, x: int, y: int) -> (u8, u8, u8, u8) {
    (pix(s, w, x, y, 0), pix(s, w, x, y, 1), pix(s, w, x, y, 2), pix(s, w, x, y, 3))
}

/// Colour channel `c` pre-multiplied by the coverage `a`.
pub open spec fn premul(c: u8, a: u8) -> u8 {
    ((c * a) / 255) as u8
}

/// One channel of the pre-multiplied source `s` with coverage `a` painted
/// over `d` (source-over).
pub open spec fn over_channel(s: u8, d: u8, a: u8) -> u8 {
    (s + (d * (255 - a)) / 255) as u8
}

/// The pre-multiplied colour `src` with coverage `a` painted over the pixel
/// `d`; the result is opaque.
pub open spec fn blended(d: (u8, u8, u8, u8), src: (u8, u8, u8), a: u8) -> (u8, u8, u8, u8) {
    (over_channel(src.0, d.0, a), over_channel(src.1, d.1, a), over_channel(src.2, d.2, a), 255)
}

/// Pre-multiply the channel `c` by the coverage `a`.
fn premultiply(c: u8, a: u8) -> (r: u8)
    ensures
        r == premul(c, a),
        r <= a,
{
    let c32 = c as u32;
    let a32 = a as u32;
    assert(c32 * a32 <= 255 * a32) by (nonlinear_arith)
        requires
            c32 <= 255,
    ;
    let v = (c32 * a32) / 255;
    assert(v <= a32) by (nonlinear_arith)
        requires
            v == (c32 * a32) / 255,
            c32 * a32 <= 255 * a32,
    ;
    v as u8
}

fn blend_one(s: u8, d: u8, a: u8) -> (r: u8)
    requires
        s <= a,
    ensures
        r == over_channel(s, d, a),
{
    let a32 = a as u32;
    let inv = 255 - a32;
    let s32 = s as u32;
    let d32 = d as u32;
    assert(d32 * inv <= 255 * inv) by (nonlinear_arith)
        requires
            d32 <= 255,
    ;
    let q = (d32 * inv) / 255;
    assert(q <= inv) by (nonlinear_arith)
        requires
            q == (d32 * inv) / 255,
            d32 * inv <= 255 * inv,
    ;
    let v = s32 + q;
    v as u8
}

/// Paint the pre-multiplied colour `(sr, sg, sb)` with coverage `sa` over
/// the pixel `dst`: each channel becomes `s + d * (255 - sa) / 255`, and
/// the result is opaque. Full coverage copies the source.
pub fn blend(dst: (u8, u8, u8, u8), sr: u8, sg: u8, sb: u8, sa: u8) -> (r: (u8, u8, u8, u8))
    requires
        sr <= sa,
        sg <= sa,
        sb <= sa,
    ensures
        r == blended(dst, (sr, sg, sb), sa),
        sa == 255 ==> r == (sr, sg, sb, 255u8),
{
    if sa == 0xFF {
        assert(over_channel(sr, dst.0, sa) == sr);
        assert(over_channel(sg, dst.1, sa) == sg);
        assert(over_channel(sb, dst.2, sa) == sb);
        return (sr, sg, sb, 0xFF);
    }
    (blend_one(sr, dst.0, sa), blend_one(sg, dst.1, sa), blend_one(sb, dst.2, sa), 0xFF)
}

/// Whether `(x, y)` lies in the `w` by `h` box at `(x0, y0)`.
pub open spec fn in_box(x: int, y: int, x0: int, y0: int, w: int, h: int) -> bool {
    x0 <= x < x0 + w && y0 <= y < y0 + h
}

/// The source row or column that destination offset `d` samples when
/// `src_n` source pixels are stretched over `dst_n` (nearest neighbour).
pub open spec fn sample(d: int, src_n: int, dst_n: int) -> int {
    (d * src_n) / dst_n
}

proof fn lemma_sample(d: int, src_n: int, dst_n: int)
    requires
        0 <= d < dst_n,
        0 < src_n,
    ensures
        0 <= sample(d, src_n, dst_n) < src_n,
{
    assert(0 <= (d * src_n) / dst_n < src_n) by (nonlinear_arith)
        requires
            0 <= d < dst_n,
            0 < src_n,
    ;
}

/// Byte `k` of the blit of the `sw` by `sh` RGBA8 image `src`, stretched
/// over the `dw` by `dh` box at `(x0, y0)`, at page pixel `(x, y)`: the
/// nearest source pixel's colour, made opaque.
pub open spec fn blit_value(
    src: Seq<u8>,
    sw: int,
    sh: int,
    x0: int,
    y0: int,
    dw: int,
    dh: int,
    x: int,
    y: int,
    k: int,
) -> u8 {
    if k == 3 {
        255
    } else {
        src[at(sample(x - x0, sw, dw), sample(y - y0, sh, dh), sw) + k]
    }
}

/// Nearest-neighbour blit of the `src_w` by `src_h` RGBA8 image `src`,
/// stretched over the `dst_w` by `dst_h` box at `(dst_x0, dst_y0)`; the
/// source's alpha is ignored and what falls off the page is clipped. An
/// empty source or box draws nothing.
pub fn blit_rgba_scaled(
    img: &mut PageImage,
    src: &[u8],
    src_w: u32,
    src_h: u32,
    dst_x0: i32,
    dst_y0: i32,
    dst_w: i32,
    dst_h: i32,
)
    requires
        image_wf(*old(img)),
        src@.len() >= src_w * src_h * 4,
        src_w <= i32::MAX,
        src_h <= i32::MAX,
    ensures
        image_wf(*final(img)),
        final(img).width == old(img).width,
        final(img).height == old(img).height,
        forall|x: int, y: int, k: int|
            on_page(old(img).width as int, old(img).height as int, x, y, k) ==> #[trigger] pix(
                final(img).pixels@,
                old(img).width as int,
                x,
                y,
                k,
            ) == if src_w > 0 && src_h > 0 && dst_w > 0 && dst_h > 0 && in_box(
                x,
                y,
                dst_x0 as int,
                dst_y0 as int,
                dst_w as int,
                dst_h as int,
            ) {
                blit_value(
                    src@,
                    src_w as int,
                    src_h as int,
                    dst_x0 as int,
                    dst_y0 as int,
                    dst_w as int,
                    dst_h as int,
                    x,
                    y,
                    k,
                )
            } else {
                pix(old(img).pixels@, old(img).width as int, x, y, k)
            },
        opaque(old(img).pixels@, old(img).width as int, old(img).height as int) ==> opaque(
            final(img).pixels@,
            old(img).width as int,
            old(img).height as int,
        ),
{
    let ghost before = img.pixels@;
    let w = img.width;
    let h = img.height;
    let ghost wi = w as int;
    let ghost hi = h as int;
    if src_w == 0 || src_h == 0 || dst_w <= 0 || dst_h <= 0 {
        return;
    }
    let ghost (x0, y0, dw, dh) = (dst_x0 as int, dst_y0 as int, dst_w as int, dst_h as int);
    let ghost (sw, sh) = (src_w as int, src_h as int);
    let mut y: i32 = 0;
    while y < dst_h
        invariant
            image_wf(*img),
            img.width == w,
            img.height == h,
            0 <= y <= dst_h,
            dst_w > 0,
            dst_h > 0,
            src_w > 0,
            src_h > 0,
            src@.len() >= src_w * src_h * 4,
            src_w <= i32::MAX,
            src_h <= i32::MAX,
            x0 == dst_x0 as int,
            y0 == dst_y0 as int,
            dw == dst_w as int,
            dh == dst_h as int,
            sw == src_w as int,
            sh == src_h as int,
            wi == w as int,
            hi == h as int,
            forall|xx: int, yy: int, k: int|
                on_page(wi, hi, xx, yy, k) ==> #[trigger] pix(img.pixels@, wi, xx, yy, k) == if in_box(
                    xx,
                    yy,
                    x0,
                    y0,
                    dw,
                    dh,
                ) && yy - y0 < y {
                    blit_value(src@, sw, sh, x0, y0, dw, dh, xx, yy, k)
                } else {
                    pix(before, wi, xx, yy, k)
                },
        decreases dst_h - y,
    {
        let py = dst_y0 as i64 + y as i64;
        if py >= 0 && py < h as i64 {
            assert(y as i64 * src_h as i64 <= 0x7fff_ffff * 0x7fff_ffff) by (nonlinear_arith)
                requires
                    0 <= y <= 0x7fff_ffff,
                    src_h <= 0x7fff_ffff,
            ;
            let sy = (y as i64 * src_h as i64) / dst_h as i64;
            proof {
                lemma_sample(y as int, sh, dh);
            }
            let mut x: i32 = 0;
            while x < dst_w
                invariant
                    image_wf(*img),
                    img.width == w,
                    img.height == h,
                    0 <= y < dst_h,
                    0 <= x <= dst_w,
                    py == y0 + y,
                    0 <= py < hi,
                    sy == sample(y as int, sh, dh),
                    0 <= sy < sh,
                    dst_w > 0,
                    dst_h > 0,
                    src_w > 0,
                    src_h > 0,
                    src@.len() >= src_w * src_h * 4,
                    src_w <= i32::MAX,
                    src_h <= i32::MAX,
                    x0 == dst_x0 as int,
                    y0 == dst_y0 as int,
                    dw == dst_w as int,
                    dh == dst_h as int,
                    sw == src_w as int,
                    sh == src_h as int,
                    wi == w as int,
                    hi == h as int,
                    forall|xx: int, yy: int, k: int|
                        on_page(wi, hi, xx, yy, k) ==> #[trigger] pix(img.pixels@, wi, xx, yy, k)
                            == if in_box(xx, yy, x0, y0, dw, dh) && (yy - y0 < y || (yy - y0 == y
                            && xx - x0 < x)) {
                            blit_value(src@, sw, sh, x0, y0, dw, dh, xx, yy, k)
                        } else {
                            pix(before, wi, xx, yy, k)
                        },
                decreases dst_w - x,
            {
                let px = dst_x0 as i64 + x as i64;
                if px >= 0 && px < w as i64 {
                    assert(x as i64 * src_w as i64 <= 0x7fff_ffff * 0x7fff_ffff) by (nonlinear_arith)
                        requires
                            0 <= x <= 0x7fff_ffff,
                            src_w <= 0x7fff_ffff,
                    ;
                    let sx = (x as i64 * src_w as i64) / dst_w as i64;
                    proof {
                        lemma_sample(x as int, sw, dw);
                        lemma_at_bounds(sw, sh, sx as int, sy as int, 3);
                    }
                    let src_len = src.len();
                    let si = ((sy as usize) * (src_w as usize) + (sx as usize)) * 4;
                    let v = (src[si], src[si + 1], src[si + 2], 0xFFu8);
                    put_pixel(img, px as u32, py as u32, v);
                }
                x = x + 1;
            }
        }
        y = y + 1;
    }
}

/// Whether `(x, y)` lies on the one-pixel frame of the `w` by `h` box at
/// `(x0, y0)`.
pub open spec fn on_frame(x: int, y: int, x0: int, y0: int, w: int, h: int) -> bool {
    ||| (x0 <= x < x0 + w && (y == y0 || y == y0 + h - 1))
    ||| (y0 <= y < y0 + h && (x == x0 || x == x0 + w - 1))
}

/// Draw the one-pixel frame of the `dst_w` by `dst_h` box at
/// `(dst_x0, dst_y0)` in the opaque colour `(r, g, b)` (the stand-in for a
/// missing image); the inside is left alone and what falls off the page is
/// clipped.
pub fn draw_placeholder_box(
    img: &mut PageImage,
    dst_x0: i32,
    dst_y0: i32,
    dst_w: i32,
    dst_h: i32,
    color: (u8, u8, u8, u8),
)
    requires
        image_wf(*old(img)),
    ensures
        image_wf(*final(img)),
        final(img).width == old(img).width,
        final(img).height == old(img).height,
        forall|x: int, y: int, k: int|
            on_page(old(img).width as int, old(img).height as int, x, y, k) ==> #[trigger] pix(
                final(img).pixels@,
                old(img).width as int,
                x,
                y,
                k,
            ) == if dst_w > 0 && dst_h > 0 && on_frame(
                x,
                y,
                dst_x0 as int,
                dst_y0 as int,
                dst_w as int,
                dst_h as int,
            ) {
                comp((color.0, color.1, color.2, 255), k)
            } else {
                pix(old(img).pixels@, old(img).width as int, x, y, k)
            },
        opaque(old(img).pixels@, old(img).width as int, old(img).height as int) ==> opaque(
            final(img).pixels@,
            old(img).width as int,
            old(img).height as int,
        ),
{
    if dst_w <= 0 || dst_h <= 0 {
        return;
    }
    let ghost before = img.pixels@;
    let w = img.width;
    let h = img.height;
    let ghost wi = w as int;
    let ghost hi = h as int;
    let ghost (x0, y0, dw, dh) = (dst_x0 as int, dst_y0 as int, dst_w as int, dst_h as int);
    let v = (color.0, color.1, color.2, 0xFFu8);
    let top = dst_y0 as i64;
    let bottom = dst_y0 as i64 + dst_h as i64 - 1;
    let left = dst_x0 as i64;
    let right = dst_x0 as i64 + dst_w as i64 - 1;
    let mut x = left;
    while x <= right
        invariant
            image_wf(*img),
            img.width == w,
            img.height == h,
            left <= x <= right + 1,
            right <= 0x1_0000_0000,
            wi == w as int,
            hi == h as int,
            left == x0,
            right == x0 + dw - 1,
            top == y0,
            bottom == y0 + dh - 1,
            v == (color.0, color.1, color.2, 255u8),
            forall|xx: int, yy: int, k: int|
                on_page(wi, hi, xx, yy, k) ==> #[trigger] pix(img.pixels@, wi, xx, yy, k) == if x0
                    <= xx < x && (yy == y0 || yy == y0 + dh - 1) {
                    comp(v, k)
                } else {
                    pix(before, wi, xx, yy, k)
                },
        decreases right + 1 - x,
    {
        let ghost prev = img.pixels@;
        if x >= 0 && x < w as i64 {
            if top >= 0 && top < h as i64 {
                put_pixel(img, x as u32, top as u32, v);
            }
            let ghost mid = img.pixels@;
            if bottom >= 0 && bottom < h as i64 {
                put_pixel(img, x as u32, bottom as u32, v);
            }
            assert forall|xx: int, yy: int, k: int| on_page(wi, hi, xx, yy, k) implies #[trigger] pix(
                img.pixels@,
                wi,
                xx,
                yy,
                k,
            ) == if xx == x && (yy == top || yy == bottom) {
                comp(v, k)
            } else {
                pix(prev, wi, xx, yy, k)
            } by {
                assert(pix(mid, wi, xx, yy, k) == if xx == x && yy == top {
                    comp(v, k)
                } else {
                    pix(prev, wi, xx, yy, k)
                });
            }
        }
        x = x + 1;
    }
    let mut y = top;
    while y <= bottom
        invariant
            image_wf(*img),
            img.width == w,
            img.height == h,
            top <= y <= bottom + 1,
            bottom <= 0x1_0000_0000,
            wi == w as int,
            hi == h as int,
            left == x0,
            right == x0 + dw - 1,
            top == y0,
            bottom == y0 + dh - 1,
            dw > 0,
            v == (color.0, color.1, color.2, 255u8),
            forall|xx: int, yy: int, k: int|
                on_page(wi, hi, xx, yy, k) ==> #[trigger] pix(img.pixels@, wi, xx, yy, k) == if (x0
                    <= xx < x0 + dw && (yy == y0 || yy == y0 + dh - 1)) || (y0 <= yy < y && (xx
                    == x0 || xx == x0 + dw - 1)) {
                    comp(v, k)
                } else {
                    pix(before, wi, xx, yy, k)
                },
        decreases bottom + 1 - y,
    {
        let ghost prev = img.pixels@;
        if y >= 0 && y < h as i64 {
            if left >= 0 && left < w as i64 {
                put_pixel(img, left as u32, y as u32, v);
            }
            let ghost mid = img.pixels@;
            if right >= 0 && right < w as i64 {
                put_pixel(img, right as u32, y as u32, v);
            }
            assert forall|xx: int, yy: int, k: int| on_page(wi, hi, xx, yy, k) implies #[trigger] pix(
                img.pixels@,
                wi,
                xx,
                yy,
                k,
            ) == if yy == y && (xx == left || xx == right) {
                comp(v, k)
            } else {
                pix(prev, wi, xx, yy, k)
            } by {
                assert(pix(mid, wi, xx, yy, k) == if yy == y && xx == left {
                    comp(v, k)
                } else {
                    pix(prev, wi, xx, yy, k)
                });
            }
        }
        y = y + 1;
    }
}

/// How the bytes of a glyph image are read.
#[derive(Debug, Clone, Copy)]
pub enum GlyphKind {
    /// One coverage byte per pixel, painted in the text colour.
    Mask,
    /// Per-channel coverage; not drawn.
    SubpixelMask,
    /// Four RGBA bytes per pixel, painted in their own colour.
    Color,
}

/// A rasterized glyph: its placement relative to the pen position and its
/// pixels.
#[derive(Debug, Clone)]
pub struct GlyphImage {
    /// Horizontal offset of the image from the pen position.
    pub left: i32,
    /// Distance from the image's top row up to the baseline.
    pub top: i32,
    /// Width in pixels.
    pub width: u32,
    /// Height in pixels.
    pub height: u32,
    /// How `data` is laid out.
    pub kind: GlyphKind,
    /// Row-major pixel data.
    pub data: Vec<u8>,
}

/// Whether a glyph image paints anything at all.
pub open spec fn glyph_draws(g: GlyphImage) -> bool {
    0 < g.width <= i32::MAX && 0 < g.height <= i32::MAX && !(g.kind is SubpixelMask)
}

/// Whether a glyph image holds as many bytes as its size says.
pub open spec fn glyph_fits(g: GlyphImage) -> bool {
    match g.kind {
        GlyphKind::Mask => g.data@.len() >= g.width * g.height,
        GlyphKind::Color => g.data@.len() >= g.width * g.height * 4,
        GlyphKind::SubpixelMask => true,
    }
}

/// What the glyph `g`, drawn with its pen at `(ox, oy)` in the text colour
/// `fg`, paints at page pixel `(x, y)`: its colour (`fg` for a mask)
/// pre-multiplied by a non-zero coverage, and that coverage; or nothing.
pub open spec fn glyph_paint(
    g: GlyphImage,
    ox: int,
    oy: int,
    fg: (u8, u8, u8, u8),
    x: int,
    y: int,
) -> Option<((u8, u8, u8), u8)> {
    let gx = x - (ox + g.left);
    let gy = y - (oy - g.top);
    if !glyph_draws(g) || !(0 <= gx < g.width && 0 <= gy < g.height) {
        None
    } else {
        match g.kind {
            GlyphKind::Mask => {
                let a = g.data@[gy * g.width + gx];
                if a == 0 {
                    None
                } else {
                    Some(((premul(fg.0, a), premul(fg.1, a), premul(fg.2, a)), a))
                }
            },
            GlyphKind::Color => {
                let i = at(gx, gy, g.width as int);
                let a = g.data@[i + 3];
                if a == 0 {
                    None
                } else {
                    Some(
                        (
                            (premul(g.data@[i], a), premul(g.data@[i + 1], a), premul(g.data@[i + 2], a)),
                            a,
                        ),
                    )
                }
            },
            GlyphKind::SubpixelMask => None,
        }
    }
}

/// Byte `k` of page pixel `(x, y)` after drawing the glyph over `before`.
pub open spec fn glyph_result(
    before: Seq<u8>,
    w: int,
    g: GlyphImage,
    ox: int,
    oy: int,
    fg: (u8, u8, u8, u8),
    x: int,
    y: int,
    k: int,
) -> u8 {
    match glyph_paint(g, ox, oy, fg, x, y) {
        Some(p) => comp(blended(pixel(before, w, x, y), p.0, p.1), k),
        None => pix(before, w, x, y, k),
    }
}

/// `after` is the `w` by `h` page `before` with the glyph drawn on it.
pub open spec fn glyph_drawn(
    before: Seq<u8>,
    after: Seq<u8>,
    w: int,
    h: int,
    g: GlyphImage,
    ox: int,
    oy: int,
    fg: (u8, u8, u8, u8),
) -> bool {
    &&& after.len() == before.len()
    &&& forall|x: int, y: int, k: int|
        on_page(w, h, x, y, k) ==> #[trigger] pix(after, w, x, y, k) == glyph_result(
            before,
            w,
            g,
            ox,
            oy,
            fg,
            x,
            y,
            k,
        )
}

/// Draw the glyph `g` with its pen at `(origin_x, origin_y)`: every pixel
/// it covers gets the glyph's colour (`fg` for a mask), pre-multiplied by
/// the glyph's coverage, painted over it; what falls off the page is
/// clipped.
pub fn composite_glyph(
    img: &mut PageImage,
    g: &GlyphImage,
    origin_x: i32,
    origin_y: i32,
    fg: (u8, u8, u8, u8),
)
    requires
        image_wf(*old(img)),
        glyph_fits(*g),
    ensures
        image_wf(*final(img)),
        final(img).width == old(img).width,
        final(img).height == old(img).height,
        glyph_drawn(
            old(img).pixels@,
            final(img).pixels@,
            old(img).width as int,
            old(img).height as int,
            *g,
            origin_x as int,
            origin_y as int,
            fg,
        ),
        opaque(old(img).pixels@, old(img).width as int, old(img).height as int) ==> opaque(
            final(img).pixels@,
            old(img).width as int,
            old(img).height as int,
        ),
{
    let ghost before = img.pixels@;
    let w = img.width;
    let h = img.height;
    let ghost wi = w as int;
    let ghost hi = h as int;
    let ghost ox = origin_x as int;
    let ghost oy = origin_y as int;
    let is_subpixel = match g.kind {
        GlyphKind::SubpixelMask => true,
        _ => false,
    };
    if g.width == 0 || g.height == 0 || g.width > 0x7fff_ffff || g.height > 0x7fff_ffff
        || is_subpixel {
        return;
    }
    let dst_x0 = origin_x as i64 + g.left as i64;
    let dst_y0 = origin_y as i64 - g.top as i64;
    let mut gy: u32 = 0;
    while gy < g.height
        invariant
            image_wf(*img),
            img.width == w,
            img.height == h,
            wi == w as int,
            hi == h as int,
            ox == origin_x as int,
            oy == origin_y as int,
            glyph_draws(*g),
            glyph_fits(*g),
            dst_x0 == ox + g.left,
            dst_y0 == oy - g.top,
            gy <= g.height,
            forall|xx: int, yy: int, k: int|
                on_page(wi, hi, xx, yy, k) ==> #[trigger] pix(img.pixels@, wi, xx, yy, k) == if yy
                    - dst_y0 < gy {
                    glyph_result(before, wi, *g, ox, oy, fg, xx, yy, k)
                } else {
                    pix(before, wi, xx, yy, k)
                },
        decreases g.height - gy,
    {
        let py = dst_y0 + gy as i64;
        if py >= 0 && py < h as i64 {
            let mut gx: u32 = 0;
            while gx < g.width
                invariant
                    image_wf(*img),
                    img.width == w,
                    img.height == h,
                    wi == w as int,
                    hi == h as int,
                    ox == origin_x as int,
                    oy == origin_y as int,
                    glyph_draws(*g),
                    glyph_fits(*g),
                    dst_x0 == ox + g.left,
                    dst_y0 == oy - g.top,
                    gy < g.height,
                    gx <= g.width,
                    py == dst_y0 + gy,
                    0 <= py < hi,
                    forall|xx: int, yy: int, k: int|
                        on_page(wi, hi, xx, yy, k) ==> #[trigger] pix(img.pixels@, wi, xx, yy, k)
                            == if yy - dst_y0 < gy || (yy - dst_y0 == gy && xx - dst_x0 < gx) {
                            glyph_result(before, wi, *g, ox, oy, fg, xx, yy, k)
                        } else {
                            pix(before, wi, xx, yy, k)
                        },
                decreases g.width - gx,
            {
                let px = dst_x0 + gx as i64;
                if px >= 0 && px < w as i64 {
                    proof {
                        lemma_at_bounds(g.width as int, g.height as int, gx as int, gy as int, 3);
                    }
                    let data_len = g.data.len();
                    let (c, a) = match g.kind {
                        GlyphKind::Mask => {
                            let a = g.data[(gy as usize) * (g.width as usize) + (gx as usize)];
                            ((fg.0, fg.1, fg.2), a)
                        },
                        _ => {
                            let i = ((gy as usize) * (g.width as usize) + (gx as usize)) * 4;
                            ((g.data[i], g.data[i + 1], g.data[i + 2]), g.data[i + 3])
                        },
                    };
                    if a != 0 {
                        let d = get_pixel(img, px as u32, py as u32);
                        assert(d == pixel(before, wi, px as int, py as int)) by {
                            assert(comp(d, 0) == pix(img.pixels@, wi, px as int, py as int, 0));
                            assert(comp(d, 1) == pix(img.pixels@, wi, px as int, py as int, 1));
                            assert(comp(d, 2) == pix(img.pixels@, wi, px as int, py as int, 2));
                            assert(comp(d, 3) == pix(img.pixels@, wi, px as int, py as int, 3));
                        }
                        let r = premultiply(c.0, a);
                        let gr = premultiply(c.1, a);
                        let bl = premultiply(c.2, a);
                        let b = blend(d, r, gr, bl, a);
                        put_pixel(img, px as u32, py as u32, b);
                    }
                }
                gx = gx + 1;
            }
        }
        gy = gy + 1;
    }
}

/// Trusted: `SwashCache::get_image`, converted field by field to a
/// [`GlyphImage`]. What it rasterizes depends on the fonts the font system
/// holds, so nothing is promised of the result.
#[verifier::external_body]
fn rasterize_glyph(font_system: &mut FontSystem, cache: &mut SwashCache, key: CacheKey) -> Option<GlyphImage> {
    match cache.get_image(font_system, key) {
        Some(image) => Some(GlyphImage {
            left: image.placement.left,
            top: image.placement.top,
            width: image.placement.width,
            height: image.placement.height,
            kind: match image.content {
                SwashContent::Mask => GlyphKind::Mask,
                SwashContent::SubpixelMask => GlyphKind::SubpixelMask,
                SwashContent::Color => GlyphKind::Color,
            },
            data: image.data.clone(),
        }),
        None => None,
    }
}

/// Whether a glyph image holds as many bytes as its size says.
fn glyph_data_fits(g: &GlyphImage) -> (r: bool)
    ensures
        r == glyph_fits(*g),
{
    let gw = g.width as u128;
    let gh = g.height as u128;
    assert(gw * gh <= 0xffff_ffff * 0xffff_ffff) by (nonlinear_arith)
        requires
            gw <= 0xffff_ffff,
            gh <= 0xffff_ffff,
    ;
    let n = gw * gh;
    match g.kind {
        GlyphKind::Mask => (g.data.len() as u128) >= n,
        GlyphKind::Color => (g.data.len() as u128) >= n * 4,
        GlyphKind::SubpixelMask => true,
    }
}

/// `after` is the `w` by `h` page `before` once the rasterizer's answer
/// `glyph` is drawn with its pen at `(ox, oy)` in the text colour `fg`: a
/// glyph whose data is as long as its size says is drawn; no glyph, or one
/// with short data, leaves the page as it was.
pub open spec fn rasterized_drawn(
    before: Seq<u8>,
    after: Seq<u8>,
    w: int,
    h: int,
    glyph: Option<GlyphImage>,
    ox: int,
    oy: int,
    fg: (u8, u8, u8, u8),
) -> bool {
    match glyph {
        Some(g) => if glyph_fits(g) {
            glyph_drawn(before, after, w, h, g, ox, oy, fg)
        } else {
            after == before
        },
        None => after == before,
    }
}

/// Draw what the rasterizer gave for a glyph, with its pen at
/// `(origin_x, origin_y)` in the text colour `fg`: a glyph whose data is as
/// long as its size says is composited; no glyph, or one with short data,
/// leaves the page as it was.
pub fn draw_rasterized(
    img: &mut PageImage,
    glyph: Option<GlyphImage>,
    origin_x: i32,
    origin_y: i32,
    fg: (u8, u8, u8, u8),
)
    requires
        image_wf(*old(img)),
    ensures
        image_wf(*final(img)),
        final(img).width == old(img).width,
        final(img).height == old(img).height,
        rasterized_drawn(
            old(img).pixels@,
            final(img).pixels@,
            old(img).width as int,
            old(img).height as int,
            glyph,
            origin_x as int,
            origin_y as int,
            fg,
        ),
        opaque(old(img).pixels@, old(img).width as int, old(img).height as int) ==> opaque(
            final(img).pixels@,
            old(img).width as int,
            old(img).height as int,
        ),
{
    match glyph {
        Some(g) => {
            if glyph_data_fits(&g) {
                composite_glyph(img, &g, origin_x, origin_y, fg);
            }
        },
        None => {},
    }
}

/// Rasterize the glyph `cache_key` and draw it with its pen at
/// `(origin_x, origin_y)` in the text colour `fg`, as [`draw_rasterized`]
/// draws the rasterizer's answer. Which answer the rasterizer gives
/// depends on the fonts the font system holds.
pub fn draw_glyph(
    img: &mut PageImage,
    font_system: &mut FontSystem,
    swash_cache: &mut SwashCache,
    cache_key: CacheKey,
    origin_x: i32,
    origin_y: i32,
    fg: (u8, u8, u8, u8),
)
    requires
        image_wf(*old(img)),
    ensures
        image_wf(*final(img)),
        final(img).width == old(img).width,
        final(img).height == old(img).height,
        exists|glyph: Option<GlyphImage>|
            #[trigger] rasterized_drawn(
                old(img).pixels@,
                final(img).pixels@,
                old(img).width as int,
                old(img).height as int,
                glyph,
                origin_x as int,
                origin_y as int,
                fg,
            ),
        opaque(old(img).pixels@, old(img).width as int, old(img).height as int) ==> opaque(
            final(img).pixels@,
            old(img).width as int,
            old(img).height as int,
        ),
{
    let glyph = rasterize_glyph(font_system, swash_cache, cache_key);
    draw_rasterized(img, glyph, origin_x, origin_y, fg);
}

/// Painting a pre-multiplied channel: the channel `c` times the coverage
/// `a`, plus `d` times what is left of the coverage.
proof fn lemma_over_premul(c: u8, d: u8, a: u8)
    ensures
        over_channel(premul(c, a), d, a) as int == (c * a) / 255 + (d * (255 - a)) / 255,
{
    let p = (c as int * a as int) / 255;
    assert(p <= a) by (nonlinear_arith)
        requires
            p == (c as int * a as int) / 255,
            c <= 255,
            a <= 255,
    ;
    let q = (d as int * (255 - a as int)) / 255;
    assert(q <= 255 - a) by (nonlinear_arith)
        requires
            q == (d as int * (255 - a as int)) / 255,
            d <= 255,
            a <= 255,
    ;
    assert(premul(c, a) as int == p);
}

/// Law: a glyph lands row for row and column for column. After a mask
/// glyph `g` is drawn with its pen at `(ox, oy)`, the page pixel at
/// `(ox + g.left + gx, oy - g.top + gy)` takes byte `gy * g.width + gx` of
/// the mask as its coverage: untouched where it is 0, otherwise the text
/// colour times the coverage plus the old pixel times what is left of it,
/// and opaque.
pub proof fn law_mask_glyph_placement(
    before: Seq<u8>,
    after: Seq<u8>,
    w: int,
    h: int,
    g: GlyphImage,
    ox: int,
    oy: int,
    fg: (u8, u8, u8, u8),
    gx: int,
    gy: int,
)
    requires
        glyph_drawn(before, after, w, h, g, ox, oy, fg),
        g.kind is Mask,
        glyph_draws(g),
        glyph_fits(g),
        0 <= gx < g.width,
        0 <= gy < g.height,
        0 <= ox + g.left + gx < w,
        0 <= oy - g.top + gy < h,
    ensures
        ({
            let x = ox + g.left + gx;
            let y = oy - g.top + gy;
            let a = g.data@[gy * g.width + gx];
            &&& a == 0 ==> forall|k: int| 0 <= k < 4 ==> #[trigger] pix(after, w, x, y, k) == pix(before, w, x, y, k)
            &&& a != 0 ==> {
                &&& pix(after, w, x, y, 0) == (fg.0 * a) / 255 + (pix(before, w, x, y, 0) * (255
                    - a)) / 255
                &&& pix(after, w, x, y, 1) == (fg.1 * a) / 255 + (pix(before, w, x, y, 1) * (255
                    - a)) / 255
                &&& pix(after, w, x, y, 2) == (fg.2 * a) / 255 + (pix(before, w, x, y, 2) * (255
                    - a)) / 255
                &&& pix(after, w, x, y, 3) == 255
            }
        }),
{
    let x = ox + g.left + gx;
    let y = oy - g.top + gy;
    let a = g.data@[gy * g.width + gx];
    assert(on_page(w, h, x, y, 0) && on_page(w, h, x, y, 1) && on_page(w, h, x, y, 2) && on_page(w, h, x, y, 3));
    assert(pix(after, w, x, y, 0) == glyph_result(before, w, g, ox, oy, fg, x, y, 0));
    assert(pix(after, w, x, y, 1) == glyph_result(before, w, g, ox, oy, fg, x, y, 1));
    assert(pix(after, w, x, y, 2) == glyph_result(before, w, g, ox, oy, fg, x, y, 2));
    assert(pix(after, w, x, y, 3) == glyph_result(before, w, g, ox, oy, fg, x, y, 3));
    lemma_over_premul(fg.0, pix(before, w, x, y, 0), a);
    lemma_over_premul(fg.1, pix(before, w, x, y, 1), a);
    lemma_over_premul(fg.2, pix(before, w, x, y, 2), a);
}

/// Law: a colour glyph lands pixel for pixel. After a colour glyph `g` is
/// drawn with its pen at `(ox, oy)`, the page pixel at
/// `(ox + g.left + gx, oy - g.top + gy)` takes the glyph pixel at
/// `(gx, gy)` (bytes `4 * (gy * g.width + gx)` on): untouched where its
/// alpha is 0, otherwise its colour times its alpha plus the old pixel
/// times what is left of it, and opaque.
pub proof fn law_colour_glyph_placement(
    before: Seq<u8>,
    after: Seq<u8>,
    w: int,
    h: int,
    g: GlyphImage,
    ox: int,
    oy: int,
    fg: (u8, u8, u8, u8),
    gx: int,
    gy: int,
)
    requires
        glyph_drawn(before, after, w, h, g, ox, oy, fg),
        g.kind is Color,
        glyph_draws(g),
        glyph_fits(g),
        0 <= gx < g.width,
        0 <= gy < g.height,
        0 <= ox + g.left + gx < w,
        0 <= oy - g.top + gy < h,
    ensures
        ({
            let x = ox + g.left + gx;
            let y = oy - g.top + gy;
            let i = 4 * (gy * g.width + gx);
            let a = g.data@[i + 3];
            &&& a == 0 ==> forall|k: int| 0 <= k < 4 ==> #[trigger] pix(after, w, x, y, k) == pix(before, w, x, y, k)
            &&& a != 0 ==> {
                &&& pix(after, w, x, y, 0) == (g.data@[i] * a) / 255 + (pix(before, w, x, y, 0) * (
                255 - a)) / 255
                &&& pix(after, w, x, y, 1) == (g.data@[i + 1] * a) / 255 + (pix(before, w, x, y, 1)
                    * (255 - a)) / 255
                &&& pix(after, w, x, y, 2) == (g.data@[i + 2] * a) / 255 + (pix(before, w, x, y, 2)
                    * (255 - a)) / 255
                &&& pix(after, w, x, y, 3) == 255
            }
        }),
{
    let x = ox + g.left + gx;
    let y = oy - g.top + gy;
    lemma_at_bounds(g.width as int, g.height as int, gx, gy, 3);
    assert(at(gx, gy, g.width as int) == 4 * (gy * g.width + gx)) by (nonlinear_arith);
    assert(on_page(w, h, x, y, 0) && on_page(w, h, x, y, 1) && on_page(w, h, x, y, 2) && on_page(w, h, x, y, 3));
    assert(pix(after, w, x, y, 0) == glyph_result(before, w, g, ox, oy, fg, x, y, 0));
    assert(pix(after, w, x, y, 1) == glyph_result(before, w, g, ox, oy, fg, x, y, 1));
    assert(pix(after, w, x, y, 2) == glyph_result(before, w, g, ox, oy, fg, x, y, 2));
    assert(pix(after, w, x, y, 3) == glyph_result(before, w, g, ox, oy, fg, x, y, 3));
    let i = 4 * (gy * g.width + gx);
    lemma_over_premul(g.data@[i], pix(before, w, x, y, 0), g.data@[i + 3]);
    lemma_over_premul(g.data@[i + 1], pix(before, w, x, y, 1), g.data@[i + 3]);
    lemma_over_premul(g.data@[i + 2], pix(before, w, x, y, 2), g.data@[i + 3]);
}

} // verus!
