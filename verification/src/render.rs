//! The pixel canvas: where boxes and glyphs become pixels.
//!
//! A [`Canvas`] is a flat row-major array of [`Color`]s, `width * height` of
//! them. Painting blends colours into it with straight (non-premultiplied)
//! alpha; the buffer can then be handed out as RGBA bytes (for a PNG) or as
//! `0xRRGGBB` words (for a window).
use vstd::prelude::*;
use crate::css::Color;

verus! {

// --- Blending ------------------------------------------------------------------------

/// One channel of `s` over `d` at alpha `a`: the real-valued
/// `(s * a + d * (255 - a)) / 255`, rounded to the nearest integer. That
/// quotient is never exactly halfway between two integers (255 is odd), so
/// no tie-breaking rule is involved.
pub open spec fn mix(s: u8, d: u8, a: u8) -> u8 {
    ((2 * (s * a + d * (255 - a)) + 255) / 510) as u8
}

/// `src` alpha-blended over `dst`; an opaque `src` replaces `dst`, and the
/// result is opaque.
pub open spec fn blended(src: Color, dst: Color) -> Color {
    if src.a == 255 {
        src
    } else {
        Color { r: mix(src.r, dst.r, src.a), g: mix(src.g, dst.g, src.a), b: mix(src.b, dst.b, src.a), a: 255 }
    }
}

fn mix_channel(s: u8, d: u8, a: u8) -> (r: u8)
    ensures
        r == mix(s, d, a),
{
    assert(s * a <= 255 * a && d * (255 - a) <= 255 * (255 - a)) by (nonlinear_arith)
        requires
            s <= 255,
            d <= 255,
            a <= 255,
    ;
    let n: u32 = (s as u32) * (a as u32) + (d as u32) * (255 - (a as u32));
    let q = (2 * n + 255) / 510;
    assert(q <= 255);
    q as u8
}

/// Alpha-blend `src` over `dst` (straight, non-premultiplied alpha).
pub fn blend(src: Color, dst: Color) -> (r: Color)
    ensures
        r == blended(src, dst),
{
    if src.a == 255 {
        return src;
    }
    Color {
        r: mix_channel(src.r, dst.r, src.a),
        g: mix_channel(src.g, dst.g, src.a),
        b: mix_channel(src.b, dst.b, src.a),
        a: 255,
    }
}

// --- Pixel positions ------------------------------------------------------------------

/// The index of pixel `(x, y)` in a row-major buffer `w` pixels wide.
pub open spec fn pixel_index(w: int, x: int, y: int) -> int {
    y * w + x
}

proof fn lemma_index_bound(w: int, h: int, x: int, y: int)
    requires
        0 <= x < w,
        0 <= y < h,
    ensures
        0 <= y * w <= pixel_index(w, x, y) < w * h,
{
    assert(y * w + x < w * h) by (nonlinear_arith)
        requires
            0 <= x < w,
            0 <= y < h,
    ;
    assert(0 <= y * w) by (nonlinear_arith)
        requires
            0 <= y,
            0 <= w,
    ;
}

proof fn lemma_index_unique(w: int, x1: int, y1: int, x2: int, y2: int)
    requires
        0 <= x1 < w,
        0 <= x2 < w,
        0 <= y1,
        0 <= y2,
        pixel_index(w, x1, y1) == pixel_index(w, x2, y2),
    ensures
        x1 == x2,
        y1 == y2,
{
    if y1 < y2 {
        assert(y1 * w + w <= y2 * w) by (nonlinear_arith)
            requires
                y1 < y2,
                0 <= w,
        ;
    } else if y2 < y1 {
        assert(y2 * w + w <= y1 * w) by (nonlinear_arith)
            requires
                y2 < y1,
                0 <= w,
        ;
    }
}

// --- The canvas -----------------------------------------------------------------------

/// A rectangular grid of pixels, row by row.
pub struct Canvas {
    pub width: usize,
    pub height: usize,
    pub pixels: Vec<Color>,
}

/// The pixels of `old` (a canvas `w` pixels wide) after `color` is blended
/// over those in the area `[x0, x1) × [y0, y1)`; a fully transparent colour
/// changes nothing.
pub open spec fn filled_pixel(
    old: Seq<Color>,
    w: int,
    x0: int,
    y0: int,
    x1: int,
    y1: int,
    color: Color,
    x: int,
    y: int,
) -> Color {
    if color.a > 0 && x0 <= x < x1 && y0 <= y < y1 {
        blended(color, old[pixel_index(w, x, y)])
    } else {
        old[pixel_index(w, x, y)]
    }
}

/// The RGBA bytes of a row of pixels.
pub open spec fn rgba_bytes(px: Seq<Color>) -> Seq<u8>
    decreases px.len(),
{
    if px.len() == 0 {
        Seq::empty()
    } else {
        rgba_bytes(px.drop_last()) + seq![px.last().r, px.last().g, px.last().b, px.last().a]
    }
}

/// A pixel as a `0xRRGGBB` word.
pub open spec fn rgb_word(p: Color) -> u32 {
    (p.r * 65536 + p.g * 256 + p.b) as u32
}

impl Canvas {
    /// The buffer holds exactly `width * height` pixels.
    pub open spec fn wf(&self) -> bool {
        self.pixels@.len() == self.width * self.height
    }

    /// A canvas filled with one colour.
    pub fn new(width: usize, height: usize, background: Color) -> (r: Canvas)
        requires
            width * height <= usize::MAX,
        ensures
            r.wf(),
            r.width == width,
            r.height == height,
            forall|i: int| 0 <= i < r.pixels@.len() ==> r.pixels@[i] == background,
    {
        let n = width * height;
        let mut pixels: Vec<Color> = Vec::with_capacity(n);
        let mut i: usize = 0;
        while i < n
            invariant
                i <= n,
                pixels@.len() == i,
                forall|k: int| 0 <= k < i ==> pixels@[k] == background,
            decreases n - i,
        {
            pixels.push(background);
            i += 1;
        }
        Canvas { width, height, pixels }
    }

    /// Blend `color` over the pixels of the area `[x0, x1) × [y0, y1)` that
    /// lie on the canvas.
    pub fn fill_area(&mut self, x0: usize, y0: usize, x1: usize, y1: usize, color: Color)
        requires
            old(self).wf(),
        ensures
            final(self).wf(),
            final(self).width == old(self).width,
            final(self).height == old(self).height,
            forall|x: int, y: int|
                0 <= x < old(self).width && 0 <= y < old(self).height
                    ==> #[trigger] final(self).pixels@[pixel_index(old(self).width as int, x, y)]
                    == filled_pixel(
                    old(self).pixels@,
                    old(self).width as int,
                    x0 as int,
                    y0 as int,
                    x1 as int,
                    y1 as int,
                    color,
                    x,
                    y,
                ),
    {
        if color.a == 0 {
            return;
        }
        let w = self.width;
        let h = self.height;
        let xe = if x1 < w {
            x1
        } else {
            w
        };
        let ye = if y1 < h {
            y1
        } else {
            h
        };
        let ghost old_px = self.pixels@;
        let n = self.pixels.len();
        let mut y = y0;
        while y < ye
            invariant
                n == w * h,
                self.width == w,
                self.height == h,
                old_px == old(self).pixels@,
                w == old(self).width,
                h == old(self).height,
                xe <= w,
                ye <= h,
                xe == (if x1 < w { x1 } else { w }),
                ye == (if y1 < h { y1 } else { h }),
                color.a > 0,
                self.pixels@.len() == w * h,
                y0 <= y,
                forall|xx: int, yy: int|
                    0 <= xx < w && 0 <= yy < h ==> #[trigger] self.pixels@[pixel_index(w as int, xx, yy)]
                        == if y0 <= yy && yy < y && yy < ye && x0 <= xx && xx < xe {
                        blended(color, old_px[pixel_index(w as int, xx, yy)])
                    } else {
                        old_px[pixel_index(w as int, xx, yy)]
                    },
            decreases ye - y,
        {
            let mut x = x0;
            while x < xe
                invariant
                    n == w * h,
                    self.width == w,
                    self.height == h,
                    xe <= w,
                    ye <= h,
                    y0 <= y < ye,
                    x0 <= x,
                    self.pixels@.len() == w * h,
                    forall|xx: int, yy: int|
                        0 <= xx < w && 0 <= yy < h ==> #[trigger] self.pixels@[pixel_index(
                            w as int,
                            xx,
                            yy,
                        )] == if (y0 <= yy && yy < y && yy < ye && x0 <= xx && xx < xe) || (yy == y
                            && x0 <= xx && xx < x && xx < xe) {
                            blended(color, old_px[pixel_index(w as int, xx, yy)])
                        } else {
                            old_px[pixel_index(w as int, xx, yy)]
                        },
                decreases xe - x,
            {
                proof {
                    lemma_index_bound(w as int, h as int, x as int, y as int);
                }
                let i = y * w + x;
                let p = self.pixels[i];
                assert(p == old_px[pixel_index(w as int, x as int, y as int)]);
                let ghost before = self.pixels@;
                self.pixels.set(i, blend(color, p));
                proof {
                    assert forall|xx: int, yy: int|
                        0 <= xx < w && 0 <= yy < h && (xx != x || yy != y) implies #[trigger] self.pixels@[pixel_index(
                            w as int,
                            xx,
                            yy,
                        )] == before[pixel_index(w as int, xx, yy)] by {
                        lemma_index_bound(w as int, h as int, xx, yy);
                        if pixel_index(w as int, xx, yy) == i {
                            lemma_index_unique(w as int, xx, yy, x as int, y as int);
                        }
                    }
                }
                x += 1;
            }
            y += 1;
        }
    }

    /// Blend a single pixel (a glyph's own coverage gives each pixel its alpha).
    pub fn blend_pixel(&mut self, x: usize, y: usize, color: Color)
        requires
            old(self).wf(),
        ensures
            final(self).wf(),
            final(self).width == old(self).width,
            final(self).height == old(self).height,
            final(self).pixels@ == if x < old(self).width && y < old(self).height && color.a > 0 {
                old(self).pixels@.update(
                    pixel_index(old(self).width as int, x as int, y as int),
                    blended(color, old(self).pixels@[pixel_index(old(self).width as int, x as int, y as int)]),
                )
            } else {
                old(self).pixels@
            },
    {
        let n = self.pixels.len();
        if x < self.width && y < self.height && color.a > 0 {
            proof {
                lemma_index_bound(self.width as int, self.height as int, x as int, y as int);
            }
            let idx = y * self.width + x;
            let p = self.pixels[idx];
            self.pixels.set(idx, blend(color, p));
        }
    }

    /// The buffer as tightly-packed RGBA bytes (for PNG encoding).
    pub fn to_rgba_bytes(&self) -> (r: Vec<u8>)
        ensures
            r@ == rgba_bytes(self.pixels@),
    {
        let mut out: Vec<u8> = Vec::new();
        let mut i: usize = 0;
        while i < self.pixels.len()
            invariant
                i <= self.pixels@.len(),
                out@ == rgba_bytes(self.pixels@.take(i as int)),
            decreases self.pixels.len() - i,
        {
            let p = self.pixels[i];
            assert(self.pixels@.take(i + 1).drop_last() == self.pixels@.take(i as int));
            out.push(p.r);
            out.push(p.g);
            out.push(p.b);
            out.push(p.a);
            assert(out@ =~= rgba_bytes(self.pixels@.take(i as int)) + seq![p.r, p.g, p.b, p.a]);
            i += 1;
        }
        assert(self.pixels@.take(i as int) == self.pixels@);
        out
    }

    /// The buffer as `0xRRGGBB` words (the format a window buffer wants).
    pub fn to_argb_u32(&self) -> (r: Vec<u32>)
        ensures
            r@ == self.pixels@.map_values(|p: Color| rgb_word(p)),
    {
        let mut out: Vec<u32> = Vec::new();
        let mut i: usize = 0;
        while i < self.pixels.len()
            invariant
                i <= self.pixels@.len(),
                out@ == self.pixels@.take(i as int).map_values(|p: Color| rgb_word(p)),
            decreases self.pixels.len() - i,
        {
            let p = self.pixels[i];
            let word = (p.r as u32) * 65536 + (p.g as u32) * 256 + (p.b as u32);
            out.push(word);
            assert(out@ =~= self.pixels@.take(i + 1).map_values(|p: Color| rgb_word(p)));
            i += 1;
        }
        assert(self.pixels@.take(i as int) == self.pixels@);
        out
    }

    /// A new canvas holding rows `[top, top + height)` of this one: `top` is
    /// clamped to the last row, and the height to what is left below it, but
    /// at least one row.
    pub fn cropped(&self, top: usize, height: usize) -> (r: Canvas)
        requires
            self.wf(),
            self.height > 0 || self.width == 0,
        ensures
            r.wf(),
            r.width == self.width,
            r.height == crop_height(self.height as int, top as int, height as int),
            r.pixels@ == self.pixels@.subrange(
                crop_top(self.height as int, top as int) * self.width,
                (crop_top(self.height as int, top as int) + r.height) * self.width,
            ),
    {
        let t = if top < self.height {
            top
        } else if self.height > 0 {
            self.height - 1
        } else {
            0
        };
        let rest = self.height - t;
        let h0 = if height < rest {
            height
        } else {
            rest
        };
        let h = if h0 > 1 {
            h0
        } else {
            1
        };
        let w = self.width;
        let n = self.pixels.len();
        proof {
            if w > 0 {
                assert(t + h <= self.height);
                assert((t + h) * w <= self.height * w) by (nonlinear_arith)
                    requires
                        t + h <= self.height,
                        0 <= w,
                ;
            } else {
                assert((t + h) * w == 0) by (nonlinear_arith)
                    requires
                        w == 0,
                ;
            }
            assert(t * w <= (t + h) * w) by (nonlinear_arith)
                requires
                    0 <= t,
                    0 <= h,
                    0 <= w,
            ;
            assert(self.height * w == w * self.height) by (nonlinear_arith);
            assert(h * w == w * h) by (nonlinear_arith);
            assert((t + h) * w == t * w + h * w) by (nonlinear_arith);
        }
        let start = t * w;
        let end = start + h * w;
        let mut pixels: Vec<Color> = Vec::new();
        let mut i = start;
        while i < end
            invariant
                start <= i <= end,
                end <= self.pixels@.len(),
                pixels@ == self.pixels@.subrange(start as int, i as int),
            decreases end - i,
        {
            pixels.push(self.pixels[i]);
            assert(pixels@ =~= self.pixels@.subrange(start as int, i + 1));
            i += 1;
        }
        Canvas { width: w, height: h, pixels }
    }
}

/// The first row of a crop starting at `top` (clamped to the last row).
pub open spec fn crop_top(canvas_h: int, top: int) -> int {
    if top < canvas_h {
        top
    } else if canvas_h > 0 {
        canvas_h - 1
    } else {
        0
    }
}

/// The height of a crop: what is asked for, at most what is left below its
/// top, and at least one row.
pub open spec fn crop_height(canvas_h: int, top: int, height: int) -> int {
    let rest = canvas_h - crop_top(canvas_h, top);
    let h0 = if height < rest {
        height
    } else {
        rest
    };
    if h0 > 1 {
        h0
    } else {
        1
    }
}

// --- Glyphs ---------------------------------------------------------------------------

/// The colour a glyph pixel of coverage `cov` (0–255) is drawn in: the run's
/// colour with its alpha scaled by the coverage.
pub open spec fn glyph_color(color: Color, cov: u8) -> Color {
    Color { a: (cov * color.a / 255) as u8, ..color }
}

/// Canvas pixel `(x, y)` after a `cw` × `ch` coverage bitmap (row-major) is
/// drawn with its top-left corner at `(left, top)`: the pixels under the
/// bitmap whose glyph colour is not fully transparent get that colour blended
/// over them.
pub open spec fn blitted_pixel(
    old: Seq<Color>,
    w: int,
    cov: Seq<u8>,
    cw: int,
    ch: int,
    left: int,
    top: int,
    color: Color,
    x: int,
    y: int,
) -> Color {
    let col = x - left;
    let row = y - top;
    if 0 <= col < cw && 0 <= row < ch && glyph_color(color, cov[pixel_index(cw, col, row)]).a > 0 {
        blended(glyph_color(color, cov[pixel_index(cw, col, row)]), old[pixel_index(w, x, y)])
    } else {
        old[pixel_index(w, x, y)]
    }
}

/// Blend a glyph's coverage bitmap onto the canvas in a solid colour, with
/// its top-left corner at `(left, top)`. Each coverage byte scales the
/// colour's alpha at that pixel, which gives anti-aliased edges; the parts
/// off the canvas are dropped.
pub fn blit_coverage(
    canvas: &mut Canvas,
    coverage: &[u8],
    width: usize,
    height: usize,
    left: i32,
    top: i32,
    color: Color,
)
    requires
        old(canvas).wf(),
        width * height <= coverage@.len(),
        width <= i32::MAX,
        height <= i32::MAX,
        left + width <= i32::MAX + 1,
        top + height <= i32::MAX + 1,
    ensures
        final(canvas).wf(),
        final(canvas).width == old(canvas).width,
        final(canvas).height == old(canvas).height,
        forall|x: int, y: int|
            0 <= x < old(canvas).width && 0 <= y < old(canvas).height
            ==> #[trigger] final(canvas).pixels@[pixel_index(old(canvas).width as int, x, y)]
            == blitted_pixel(
                old(canvas).pixels@,
                old(canvas).width as int,
                coverage@,
                width as int,
                height as int,
                left as int,
                top as int,
                color,
                x,
                y,
            ),
{
    let w = canvas.width;
    let h = canvas.height;
    let ghost old_px = canvas.pixels@;
    let n = canvas.pixels.len();
    let clen = coverage.len();
    let mut row: usize = 0;
    while row < height
        invariant
            clen == coverage@.len(),
            canvas.wf(),
            canvas.width == w,
            canvas.height == h,
            n == w * h,
            w == old(canvas).width,
            h == old(canvas).height,
            old_px == old(canvas).pixels@,
            row <= height,
            width * height <= coverage@.len(),
            width <= i32::MAX,
            height <= i32::MAX,
            left + width <= i32::MAX + 1,
            top + height <= i32::MAX + 1,
            forall|xx: int, yy: int|
                0 <= xx < w && 0 <= yy < h ==> #[trigger] canvas.pixels@[pixel_index(w as int, xx, yy)]
                    == if yy - top < row {
                    blitted_pixel(old_px, w as int, coverage@, width as int, height as int, left as int, top as int, color, xx, yy)
                } else {
                    old_px[pixel_index(w as int, xx, yy)]
                },
        decreases height - row,
    {
        let mut col: usize = 0;
        while col < width
            invariant
                clen == coverage@.len(),
                old_px == old(canvas).pixels@,
                w == old(canvas).width,
                h == old(canvas).height,
                canvas.wf(),
                canvas.width == w,
                canvas.height == h,
                n == w * h,
                row < height,
                col <= width,
                width * height <= coverage@.len(),
                width <= i32::MAX,
                height <= i32::MAX,
                left + width <= i32::MAX + 1,
                top + height <= i32::MAX + 1,
                forall|xx: int, yy: int|
                    0 <= xx < w && 0 <= yy < h ==> #[trigger] canvas.pixels@[pixel_index(
                        w as int,
                        xx,
                        yy,
                    )] == if yy - top < row || (yy - top == row && xx - left < col) {
                        blitted_pixel(old_px, w as int, coverage@, width as int, height as int, left as int, top as int, color, xx, yy)
                    } else {
                        old_px[pixel_index(w as int, xx, yy)]
                    },
            decreases width - col,
        {
            proof {
                lemma_index_bound(width as int, height as int, col as int, row as int);
            }
            let cov = coverage[row * width + col];
            let x: i32 = left + col as i32;
            let y: i32 = top + row as i32;
            let ghost before = canvas.pixels@;
            assert(x == left + col && y == top + row);
            if cov != 0 && x >= 0 && y >= 0 {
                assert(cov * color.a <= 255 * 255) by (nonlinear_arith)
                    requires
                        cov <= 255,
                        color.a <= 255,
                ;
                let alpha = ((cov as u32) * (color.a as u32) / 255) as u8;
                let c = Color { a: alpha, ..color };
                assert(c == glyph_color(color, cov));
                let xu = x as usize;
                let yu = y as usize;
                assert(xu == x && yu == y);
                canvas.blend_pixel(xu, yu, c);
            }
            proof {
                assert forall|xx: int, yy: int|
                    0 <= xx < w && 0 <= yy < h implies #[trigger] canvas.pixels@[pixel_index(
                        w as int,
                        xx,
                        yy,
                    )] == if yy - top < row || (yy - top == row && xx - left < col + 1) {
                        blitted_pixel(old_px, w as int, coverage@, width as int, height as int, left as int, top as int, color, xx, yy)
                    } else {
                        old_px[pixel_index(w as int, xx, yy)]
                    } by {
                    lemma_index_bound(w as int, h as int, xx, yy);
                    let k = pixel_index(w as int, xx, yy);
                    if xx == x && yy == y {
                        assert(coverage@[pixel_index(width as int, col as int, row as int)] == cov);
                        assert(before[k] == old_px[k]);
                        if cov == 0 {
                            assert((cov * color.a / 255) as u8 == 0) by (nonlinear_arith)
                                requires
                                    cov == 0,
                            ;
                            assert(glyph_color(color, cov).a == 0);
                            assert(canvas.pixels@[k] == before[k]);
                        }
                    } else {
                        if cov != 0 && x >= 0 && y >= 0 {
                            if x < w && y < h {
                                let j = pixel_index(w as int, x as int, y as int);
                                lemma_index_bound(w as int, h as int, x as int, y as int);
                                if k == j {
                                    lemma_index_unique(w as int, xx, yy, x as int, y as int);
                                }
                                assert(k != j);
                                assert(canvas.pixels@[k] == before[k]);
                            } else {
                                assert(canvas.pixels@ == before);
                            }
                        } else {
                            assert(canvas.pixels@ == before);
                        }
                    }
                }
            }
            col += 1;
        }
        row += 1;
    }
}

} // verus!
