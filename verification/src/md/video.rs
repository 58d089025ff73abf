//! Frame drawing: an RGBA canvas with filled disks and 8x8 bitmap text.
//! The glyphs come from the font8x8 data crate; the floating-point layout
//! of a frame (where atoms and curves go) is computed by the caller.

use vstd::prelude::*;
use font8x8::UnicodeFonts;
use vstd::string::StrSliceExecFns;
use vstd::arithmetic::div_mod::lemma_fundamental_div_mod_converse;

verus! {

/// The rows of the 8x8 bitmap that font8x8's basic set holds for `c`, one
/// byte per row, least significant bit leftmost.
pub uninterp spec fn basic_glyph(c: char) -> Seq<u8>;

/// `font8x8::BASIC_FONTS.get(c)`. The basic set is a table of exactly the
/// 128 code points U+0000..U+007F, sorted and searched by code point, so the
/// lookup finds a glyph exactly for those; what the glyph's rows hold is
/// named, not stated.
#[verifier::external_body]
fn basic_glyph_of(c: char) -> (r: Option<[u8; 8]>)
    ensures
        r is Some <==> (c as u32) < 128,
        r matches Some(g) ==> g@ == basic_glyph(c),
{
    font8x8::BASIC_FONTS.get(c)
}

/// The PNG file signature, the first eight bytes of every PNG file.
pub open spec fn png_signature() -> Seq<u8> {
    seq![137u8, 80u8, 78u8, 71u8, 13u8, 10u8, 26u8, 10u8]
}

/// The bytes that the image crate's PNG encoder writes for a width by
/// height RGBA8 image with the given pixel bytes (default compression and
/// filter).
pub uninterp spec fn png_encoding(width: u32, height: u32, rgba: Seq<u8>) -> Seq<u8>;

#[verifier::external_type_specification]
#[verifier::external_body]
pub struct ExImageError(image::ImageError);

/// `image::write_buffer_with_format` for an RGBA8 buffer and
/// `ImageFormat::Png`, writing into a fresh byte vector; this is the call
/// that `RgbaImage::write_to` makes. The encoder asserts that the buffer
/// holds exactly 4 * width * height bytes. On success the bytes are named by
/// `png_encoding`, and they begin with the PNG signature, which the png
/// crate writes before anything else. An image with no columns or no rows
/// is refused (the png crate's zero-width and zero-height errors); any other
/// image succeeds: with RGBA8 pixels, no palette, no animation and a buffer
/// of the asserted size, the only other failures on this path are write
/// errors, and the writer is an in-memory vector (the IDAT data is split into
/// chunks of at most 2^31 - 1 bytes, within the chunk limit).
#[verifier::external_body]
fn png_of_rgba(width: u32, height: u32, rgba: &[u8]) -> (r: Result<Vec<u8>, image::ImageError>)
    requires
        rgba@.len() == 4 * width * height,
    ensures
        r matches Ok(bytes) ==> bytes@ == png_encoding(width, height, rgba@),
        r matches Ok(bytes) ==> bytes@.len() >= 8 && bytes@.subrange(0, 8) == png_signature(),
        width > 0 && height > 0 ==> r is Ok,
        width == 0 || height == 0 ==> r is Err,
{
    let mut out: Vec<u8> = Vec::new();
    match image::write_buffer_with_format(
        &mut std::io::Cursor::new(&mut out),
        rgba,
        width,
        height,
        image::ExtendedColorType::Rgba8,
        image::ImageFormat::Png,
    ) {
        Ok(()) => Ok(out),
        Err(e) => Err(e),
    }
}

/// Why a canvas could not be encoded as PNG.
#[derive(Clone, Copy, Debug, PartialEq, Eq)]
pub enum PngError {
    /// The encoder refused the image: a canvas with no pixels.
    EncodingFailed,
}

/// A width by height RGBA image, row-major.
pub struct Canvas {
    width: u32,
    height: u32,
    pixels: Vec<[u8; 4]>,
}

/// Pixel (x, y) lies in the filled disk of radius r about (cx, cy).
pub open spec fn in_disk(cx: int, cy: int, r: int, x: int, y: int) -> bool {
    &&& cy - r <= y <= cy + r
    &&& cx - r <= x <= cx + r
    &&& (x - cx) * (x - cx) + (y - cy) * (y - cy) <= r * r
}

/// Bit `col` of a glyph row, as the blitter tests it.
pub open spec fn row_bit(bits: u8, col: int) -> bool {
    bits & (1u8 << (col as u8)) != 0
}

/// Pixel (x, y) is marked by the text s drawn with its top-left corner at
/// (x0, y0), character k occupying columns x0 + 8k .. x0 + 8k + 7.
pub open spec fn text_bit(x0: int, y0: int, s: Seq<char>, x: int, y: int) -> bool {
    let dx = x - x0;
    let dy = y - y0;
    &&& 0 <= dy < 8
    &&& 0 <= dx < 8 * s.len()
    &&& (s[dx / 8] as u32) < 128
    &&& row_bit(basic_glyph(s[dx / 8])[dy], dx % 8)
}

/// Distinct pixels have distinct indices.
proof fn lemma_pixel_index(w: int, x1: int, y1: int, x2: int, y2: int)
    requires
        w >= 1,
        0 <= x1 < w,
        0 <= x2 < w,
        0 <= y1,
        0 <= y2,
        y1 * w + x1 == y2 * w + x2,
    ensures
        x1 == x2,
        y1 == y2,
{
    lemma_fundamental_div_mod_converse(y1 * w + x1, w, y1, x1);
    lemma_fundamental_div_mod_converse(y2 * w + x2, w, y2, x2);
}

impl Canvas {
    pub closed spec fn width_view(&self) -> int {
        self.width as int
    }

    pub closed spec fn height_view(&self) -> int {
        self.height as int
    }

    /// The colour of pixel (x, y).
    pub closed spec fn pix(&self, x: int, y: int) -> [u8; 4] {
        self.pixels@[y * self.width + x]
    }

    /// The pixel buffer has one entry per pixel.
    pub closed spec fn wf(&self) -> bool {
        &&& self.pixels@.len() == self.width * self.height
        &&& self.width * self.height <= usize::MAX
    }

    /// A canvas filled with one colour.
    pub fn new(width: u32, height: u32, fill: [u8; 4]) -> (r: Self)
        requires
            width * height <= usize::MAX,
        ensures
            r.wf(),
            r.width_view() == width,
            r.height_view() == height,
            forall|x: int, y: int| 0 <= x < width && 0 <= y < height ==> #[trigger] r.pix(x, y) == fill,
    {
        let n = (width as usize) * (height as usize);
        let mut pixels: Vec<[u8; 4]> = Vec::with_capacity(n);
        let mut i: usize = 0;
        while i < n
            invariant
                i <= n,
                pixels@.len() == i,
                forall|j: int| 0 <= j < i ==> #[trigger] pixels@[j] == fill,
            decreases n - i,
        {
            pixels.push(fill);
            i += 1;
        }
        let r = Canvas { width, height, pixels };
        assert forall|x: int, y: int| 0 <= x < width && 0 <= y < height implies #[trigger] r.pix(x, y) == fill by {
            assert(0 <= y * width + x < width * height) by (nonlinear_arith)
                requires
                    0 <= x < width,
                    0 <= y < height,
            ;
        }
        r
    }

    pub fn width(&self) -> (r: u32)
        ensures
            r == self.width_view(),
    {
        self.width
    }

    pub fn height(&self) -> (r: u32)
        ensures
            r == self.height_view(),
    {
        self.height
    }

    /// The pixels, row-major.
    pub fn pixels(&self) -> (r: &Vec<[u8; 4]>)
        requires
            self.wf(),
        ensures
            r@.len() == self.width_view() * self.height_view(),
            forall|x: int, y: int|
                0 <= x < self.width_view() && 0 <= y < self.height_view() ==> #[trigger] r@[y * self.width_view() + x] == self.pix(x, y),
    {
        &self.pixels
    }

    /// The colour of pixel (x, y).
    pub fn get_pixel(&self, x: u32, y: u32) -> (r: [u8; 4])
        requires
            self.wf(),
            x < self.width_view(),
            y < self.height_view(),
        ensures
            r == self.pix(x as int, y as int),
    {
        proof {
            assert(0 <= y * self.width + x < self.width * self.height) by (nonlinear_arith)
                requires
                    x < self.width,
                    y < self.height,
            ;
        }
        self.pixels[(y as usize) * (self.width as usize) + (x as usize)]
    }

    /// Paint pixel (x, y).
    pub fn put_pixel(&mut self, x: u32, y: u32, c: [u8; 4])
        requires
            old(self).wf(),
            x < old(self).width_view(),
            y < old(self).height_view(),
        ensures
            final(self).wf(),
            final(self).width_view() == old(self).width_view(),
            final(self).height_view() == old(self).height_view(),
            forall|px: int, py: int|
                0 <= px < old(self).width_view() && 0 <= py < old(self).height_view() ==> #[trigger] final(self).pix(px, py) == if px == x && py == y {
                    c
                } else {
                    old(self).pix(px, py)
                },
    {
        proof {
            assert(0 <= y * self.width + x < self.width * self.height) by (nonlinear_arith)
                requires
                    x < self.width,
                    y < self.height,
            ;
        }
        let i = (y as usize) * (self.width as usize) + (x as usize);
        self.pixels.set(i, c);
        proof {
            assert forall|px: int, py: int|
                0 <= px < self.width && 0 <= py < self.height implies #[trigger] self.pix(px, py) == if px == x && py == y {
                    c
                } else {
                    old(self).pix(px, py)
                } by {
                assert(0 <= py * self.width + px < self.width * self.height) by (nonlinear_arith)
                    requires
                        0 <= px < self.width,
                        0 <= py < self.height,
                ;
                if py * self.width + px == i {
                    lemma_pixel_index(self.width as int, px, py, x as int, y as int);
                }
            }
        }
    }
}

/// A canvas side as `as i32` reads it: sides above i32::MAX wrap negative.
pub open spec fn side_as_i32(v: int) -> int {
    if v <= i32::MAX {
        v
    } else {
        v - 0x1_0000_0000
    }
}

/// The larger of a and b.
pub open spec fn larger(a: int, b: int) -> int {
    if a >= b {
        a
    } else {
        b
    }
}

/// The smaller of a and b.
pub open spec fn smaller(a: int, b: int) -> int {
    if a <= b {
        a
    } else {
        b
    }
}

/// Squared distance of pixel (x, y) from (cx, cy).
pub open spec fn sq_dist(cx: int, cy: int, x: int, y: int) -> int {
    (x - cx) * (x - cx) + (y - cy) * (y - cy)
}

/// The 32-bit arithmetic of drawing the disk stays in range: the row
/// bounds cy - r and cy + r + 1; when some row is visited, the column
/// bounds; when some pixel is visited, r^2 and dx^2 + dy^2 at every visited
/// pixel (rows max(cy - r, 0) .. min(cy + r + 1, h), columns likewise).
pub open spec fn disk_arith_fits(cx: int, cy: int, r: int, w: int, h: int) -> bool {
    let ylo = larger(cy - r, 0);
    let yhi = smaller(cy + r + 1, side_as_i32(h));
    let xlo = larger(cx - r, 0);
    let xhi = smaller(cx + r + 1, side_as_i32(w));
    &&& i32::MIN <= cy - r <= i32::MAX
    &&& i32::MIN <= cy + r
    &&& cy + r + 1 <= i32::MAX
    &&& ylo < yhi ==> {
        &&& i32::MIN <= cx - r <= i32::MAX
        &&& i32::MIN <= cx + r
        &&& cx + r + 1 <= i32::MAX
    }
    &&& ylo < yhi && xlo < xhi ==> r * r <= i32::MAX
    &&& forall|x: int, y: int|
        ylo <= y < yhi && xlo <= x < xhi ==> #[trigger] sq_dist(cx, cy, x, y) <= i32::MAX
}

/// Squares grow away from c: on [lo, hi] the largest is at an end.
proof fn lemma_square_at_ends(lo: int, t: int, hi: int, c: int)
    requires
        lo <= t <= hi,
    ensures
        (t - c) * (t - c) <= larger((lo - c) * (lo - c), (hi - c) * (hi - c)),
{
    if t >= c {
        assert((t - c) * (t - c) <= (hi - c) * (hi - c)) by (nonlinear_arith)
            requires
                0 <= t - c <= hi - c,
        ;
    } else {
        assert((t - c) * (t - c) <= (lo - c) * (lo - c)) by (nonlinear_arith)
            requires
                0 <= c - t <= c - lo,
        ;
    }
}

/// A canvas side as i32 would read it, widened.
fn side_i64(v: u32) -> (r: i64)
    ensures
        r == side_as_i32(v as int),
{
    if v <= 0x7FFF_FFFF {
        v as i64
    } else {
        v as i64 - 0x1_0000_0000
    }
}

impl Canvas {
    /// Whether drawing this disk keeps its 32-bit arithmetic in range (the
    /// condition `draw_disk` asks for).
    pub fn disk_fits(&self, cx: i32, cy: i32, r: i32) -> (ok: bool)
        ensures
            ok == disk_arith_fits(cx as int, cy as int, r as int, self.width_view(), self.height_view()),
    {
        let ghost (gcx, gcy, gr) = (cx as int, cy as int, r as int);
        let cx = cx as i64;
        let cy = cy as i64;
        let r = r as i64;
        let hh = side_i64(self.height);
        let ww = side_i64(self.width);
        let lo32: i64 = -0x8000_0000;
        let hi32: i64 = 0x7FFF_FFFF;
        if !(lo32 <= cy - r && cy - r <= hi32 && lo32 <= cy + r && cy + r + 1 <= hi32) {
            return false;
        }
        let ylo = if cy - r > 0 { cy - r } else { 0 };
        let yhi = if cy + r + 1 < hh { cy + r + 1 } else { hh };
        if ylo >= yhi {
            return true;
        }
        if !(lo32 <= cx - r && cx - r <= hi32 && lo32 <= cx + r && cx + r + 1 <= hi32) {
            return false;
        }
        let xlo = if cx - r > 0 { cx - r } else { 0 };
        let xhi = if cx + r + 1 < ww { cx + r + 1 } else { ww };
        if xlo >= xhi {
            return true;
        }
        let ri = r as i128;
        proof {
            assert(ri * ri <= 0x4000_0000_0000_0000) by (nonlinear_arith)
                requires
                    -0x8000_0000 <= ri <= 0x8000_0000,
            ;
        }
        if ri * ri > hi32 as i128 {
            return false;
        }
        let ax = (xlo - cx) as i128;
        let bx = (xhi - 1 - cx) as i128;
        let ay = (ylo - cy) as i128;
        let by = (yhi - 1 - cy) as i128;
        proof {
            assert(-0x1_0000_0000 <= ax <= 0x1_0000_0000);
            assert(-0x1_0000_0000 <= bx <= 0x1_0000_0000);
            assert(-0x1_0000_0000 <= ay <= 0x1_0000_0000);
            assert(-0x1_0000_0000 <= by <= 0x1_0000_0000);
            assert(0 <= ax * ax <= 0x1_0000_0000_0000_0000) by (nonlinear_arith)
                requires
                    -0x1_0000_0000 <= ax <= 0x1_0000_0000,
            ;
            assert(0 <= bx * bx <= 0x1_0000_0000_0000_0000) by (nonlinear_arith)
                requires
                    -0x1_0000_0000 <= bx <= 0x1_0000_0000,
            ;
            assert(0 <= ay * ay <= 0x1_0000_0000_0000_0000) by (nonlinear_arith)
                requires
                    -0x1_0000_0000 <= ay <= 0x1_0000_0000,
            ;
            assert(0 <= by * by <= 0x1_0000_0000_0000_0000) by (nonlinear_arith)
                requires
                    -0x1_0000_0000 <= by <= 0x1_0000_0000,
            ;
        }
        let mx = if ax * ax >= bx * bx { ax * ax } else { bx * bx };
        let my = if ay * ay >= by * by { ay * ay } else { by * by };
        let ok = mx + my <= hi32 as i128;
        proof {
            let (ylo_, yhi_, xlo_, xhi_) = (ylo as int, yhi as int, xlo as int, xhi as int);
            if ok {
                assert forall|x: int, y: int|
                    ylo_ <= y < yhi_ && xlo_ <= x < xhi_ implies #[trigger] sq_dist(gcx, gcy, x, y) <= i32::MAX by {
                    lemma_square_at_ends(xlo_, x, xhi_ - 1, gcx);
                    lemma_square_at_ends(ylo_, y, yhi_ - 1, gcy);
                }
            } else {
                let x = if ax * ax >= bx * bx { xlo_ } else { xhi_ - 1 };
                let y = if ay * ay >= by * by { ylo_ } else { yhi_ - 1 };
                assert(sq_dist(gcx, gcy, x, y) == mx + my);
            }
        }
        ok
    }

    /// Filled disk (no anti-aliasing; radius in pixels), clipped to the
    /// canvas: rows max(cy - r, 0) .. min(cy + r + 1, height) and columns
    /// likewise, with the sides read as i32.
    pub fn draw_disk(&mut self, cx: i32, cy: i32, r: i32, c: [u8; 4])
        requires
            old(self).wf(),
            disk_arith_fits(cx as int, cy as int, r as int, old(self).width_view(), old(self).height_view()),
        ensures
            final(self).wf(),
            final(self).width_view() == old(self).width_view(),
            final(self).height_view() == old(self).height_view(),
            forall|x: int, y: int|
                0 <= x < old(self).width_view() && 0 <= y < old(self).height_view() ==> #[trigger] final(self).pix(x, y) == if in_disk(cx as int, cy as int, r as int, x, y) && x < side_as_i32(old(self).width_view()) && y < side_as_i32(old(self).height_view()) {
                    c
                } else {
                    old(self).pix(x, y)
                },
    {
        let ghost w = self.width as int;
        let ghost h = self.height as int;
        let ghost (gcx, gcy, gr) = (cx as int, cy as int, r as int);
        let hh = side_i64(self.height);
        let ww = side_i64(self.width);
        let cx = cx as i64;
        let cy = cy as i64;
        let r = r as i64;
        let ylo = if cy - r > 0 { cy - r } else { 0 };
        let yhi = if cy + r + 1 < hh { cy + r + 1 } else { hh };
        let xlo = if cx - r > 0 { cx - r } else { 0 };
        let xhi = if cx + r + 1 < ww { cx + r + 1 } else { ww };
        let mut y = ylo;
        while y < yhi
            invariant
                self.wf(),
                self.width == w,
                self.height == h,
                cx == gcx,
                cy == gcy,
                r == gr,
                -0x8000_0000 <= gcx <= 0x7FFF_FFFF,
                -0x8000_0000 <= gcy <= 0x7FFF_FFFF,
                -0x8000_0000 <= gr <= 0x7FFF_FFFF,
                hh == side_as_i32(h),
                ww == side_as_i32(w),
                0 <= ylo <= y,
                y <= yhi || yhi < ylo,
                yhi <= hh,
                0 <= xlo,
                xhi <= ww,
                ylo == (if cy - r > 0 { cy - r } else { 0 }),
                yhi == (if cy + r + 1 < hh { cy + r + 1 } else { hh as int }),
                xlo == (if cx - r > 0 { cx - r } else { 0 }),
                xhi == (if cx + r + 1 < ww { cx + r + 1 } else { ww as int }),
                forall|px: int, py: int|
                    0 <= px < w && 0 <= py < h ==> #[trigger] self.pix(px, py) == if py < y && in_disk(gcx, gcy, gr, px, py) && px < ww && py < hh {
                        c
                    } else {
                        old(self).pix(px, py)
                    },
            decreases yhi - y,
        {
            let mut x = xlo;
            while x < xhi
                invariant
                    self.wf(),
                    self.width == w,
                    self.height == h,
                    cx == gcx,
                    cy == gcy,
                    r == gr,
                    -0x8000_0000 <= gcx <= 0x7FFF_FFFF,
                    -0x8000_0000 <= gcy <= 0x7FFF_FFFF,
                    -0x8000_0000 <= gr <= 0x7FFF_FFFF,
                    hh == side_as_i32(h),
                    ww == side_as_i32(w),
                    0 <= y < yhi,
                    yhi <= hh,
                    ylo <= y,
                    0 <= xlo <= x,
                    x <= xhi || xhi < xlo,
                    xhi <= ww,
                    ylo == (if cy - r > 0 { cy - r } else { 0 }),
                    yhi == (if cy + r + 1 < hh { cy + r + 1 } else { hh as int }),
                    xlo == (if cx - r > 0 { cx - r } else { 0 }),
                    xhi == (if cx + r + 1 < ww { cx + r + 1 } else { ww as int }),
                    forall|px: int, py: int|
                        0 <= px < w && 0 <= py < h ==> #[trigger] self.pix(px, py) == if (py < y || (py == y && px < x)) && in_disk(gcx, gcy, gr, px, py) && px < ww && py < hh {
                            c
                        } else {
                            old(self).pix(px, py)
                        },
                decreases xhi - x,
            {
                let dx = (x - cx) as i128;
                let dy = (y - cy) as i128;
                let rr = r as i128;
                proof {
                    assert(0 <= dx * dx <= 0x1_0000_0000_0000_0000) by (nonlinear_arith)
                        requires
                            -0x1_0000_0000 <= dx <= 0x1_0000_0000,
                    ;
                    assert(0 <= dy * dy <= 0x1_0000_0000_0000_0000) by (nonlinear_arith)
                        requires
                            -0x1_0000_0000 <= dy <= 0x1_0000_0000,
                    ;
                    assert(0 <= rr * rr <= 0x1_0000_0000_0000_0000) by (nonlinear_arith)
                        requires
                            -0x1_0000_0000 <= rr <= 0x1_0000_0000,
                    ;
                }
                let inside = dx * dx + dy * dy <= rr * rr;
                let ghost before = *self;
                if inside {
                    self.put_pixel(x as u32, y as u32, c);
                }
                proof {
                    assert forall|px: int, py: int|
                        0 <= px < w && 0 <= py < h implies #[trigger] self.pix(px, py) == if (py < y || (py == y && px < x + 1)) && in_disk(gcx, gcy, gr, px, py) && px < ww && py < hh {
                            c
                        } else {
                            old(self).pix(px, py)
                        } by {
                        assert(before.pix(px, py) == before.pix(px, py));
                        if px == x && py == y {
                            assert(in_disk(gcx, gcy, gr, px, py) == inside);
                        }
                    }
                }
                x += 1;
            }
            proof {
                assert forall|px: int, py: int|
                    0 <= px < w && 0 <= py < h implies #[trigger] self.pix(px, py) == if py < y + 1 && in_disk(gcx, gcy, gr, px, py) && px < ww && py < hh {
                        c
                    } else {
                        old(self).pix(px, py)
                    } by {
                    if py == y && px >= x && in_disk(gcx, gcy, gr, px, py) && px < ww && py < hh {
                        assert(false);
                    }
                }
            }
            y += 1;
        }
        proof {
            assert forall|px: int, py: int|
                0 <= px < w && 0 <= py < h implies #[trigger] self.pix(px, py) == if in_disk(gcx, gcy, gr, px, py) && px < side_as_i32(w) && py < side_as_i32(h) {
                    c
                } else {
                    old(self).pix(px, py)
                } by {
                if py >= y && in_disk(gcx, gcy, gr, px, py) && px < ww && py < hh {
                    assert(false);
                }
            }
        }
    }
}

/// Pixel (x, y) has been visited once the blitter reaches character k,
/// glyph row `row`, column `col`.
pub open spec fn text_done(x0: int, y0: int, x: int, y: int, k: int, row: int, col: int) -> bool {
    let dx = x - x0;
    let dy = y - y0;
    dx / 8 < k || (dx / 8 == k && (dy < row || (dy == row && dx % 8 < col)))
}

impl Canvas {
    /// 8x8 bitmap text from the font8x8 data crate (LSB = leftmost column),
    /// character k at columns x0 + 8k .. x0 + 8k + 7; characters without a
    /// glyph draw nothing; pixels off the canvas are skipped. The pixel
    /// coordinates are 32-bit: the last character's columns and the rows
    /// must fit in i32.
    pub fn draw_text(&mut self, x0: i32, y0: i32, c: [u8; 4], s: &str)
        requires
            old(self).wf(),
            s@.len() > 0 ==> 8 * (s@.len() - 1) <= i32::MAX && x0 + 8 * (s@.len() - 1) + 7 <= i32::MAX
                && y0 + 7 <= i32::MAX,
        ensures
            final(self).wf(),
            final(self).width_view() == old(self).width_view(),
            final(self).height_view() == old(self).height_view(),
            forall|x: int, y: int|
                0 <= x < old(self).width_view() && 0 <= y < old(self).height_view() ==> #[trigger] final(self).pix(x, y) == if text_bit(x0 as int, y0 as int, s@, x, y) {
                    c
                } else {
                    old(self).pix(x, y)
                },
    {
        let ghost w = self.width as int;
        let ghost h = self.height as int;
        let ghost text = s@;
        let len = s.unicode_len();
        let mut k: usize = 0;
        while k < len
            invariant
                self.wf(),
                self.width == w,
                self.height == h,
                len == text.len(),
                text == s@,
                len > 0 ==> 8 * (len - 1) <= i32::MAX && x0 + 8 * (len - 1) + 7 <= i32::MAX && y0 + 7 <= i32::MAX,
                k <= len,
                forall|px: int, py: int|
                    0 <= px < w && 0 <= py < h ==> #[trigger] self.pix(px, py) == if text_done(x0 as int, y0 as int, px, py, k as int, 0, 0) && text_bit(x0 as int, y0 as int, text, px, py) {
                        c
                    } else {
                        old(self).pix(px, py)
                    },
            decreases len - k,
        {
            let ch = s.get_char(k);
            let glyph = basic_glyph_of(ch);
            match glyph {
                Some(g) => {
                    let mut row: usize = 0;
                    while row < 8
                        invariant
                            self.wf(),
                            self.width == w,
                            self.height == h,
                            len == text.len(),
                            len > 0 ==> 8 * (len - 1) <= i32::MAX && x0 + 8 * (len - 1) + 7 <= i32::MAX && y0 + 7 <= i32::MAX,
                            k < len,
                            ch == text[k as int],
                            (ch as u32) < 128,
                            g@ == basic_glyph(ch),
                            row <= 8,
                            forall|px: int, py: int|
                                0 <= px < w && 0 <= py < h ==> #[trigger] self.pix(px, py) == if text_done(x0 as int, y0 as int, px, py, k as int, row as int, 0) && text_bit(x0 as int, y0 as int, text, px, py) {
                                    c
                                } else {
                                    old(self).pix(px, py)
                                },
                        decreases 8 - row,
                    {
                        let bits = g[row];
                        let mut col: u8 = 0;
                        while col < 8
                            invariant
                                self.wf(),
                                self.width == w,
                                self.height == h,
                                len == text.len(),
                                len > 0 ==> 8 * (len - 1) <= i32::MAX && x0 + 8 * (len - 1) + 7 <= i32::MAX && y0 + 7 <= i32::MAX,
                                k < len,
                                ch == text[k as int],
                                (ch as u32) < 128,
                                g@ == basic_glyph(ch),
                                row < 8,
                                bits == g@[row as int],
                                col <= 8,
                                forall|px: int, py: int|
                                    0 <= px < w && 0 <= py < h ==> #[trigger] self.pix(px, py) == if text_done(x0 as int, y0 as int, px, py, k as int, row as int, col as int) && text_bit(x0 as int, y0 as int, text, px, py) {
                                        c
                                    } else {
                                        old(self).pix(px, py)
                                    },
                            decreases 8 - col,
                        {
                            let x = x0 as i64 + (k as i64) * 8 + col as i64;
                            let y = y0 as i64 + row as i64;
                            let ghost before = *self;
                            let on = bits & (1u8 << col) != 0;
                            proof {
                                lemma_fundamental_div_mod_converse(x - x0, 8, k as int, col as int);
                            }
                            if on && x >= 0 && y >= 0 && x < self.width as i64 && y < self.height as i64 {
                                self.put_pixel(x as u32, y as u32, c);
                            }
                            proof {
                                assert forall|px: int, py: int|
                                    0 <= px < w && 0 <= py < h implies #[trigger] self.pix(px, py) == if text_done(x0 as int, y0 as int, px, py, k as int, row as int, col + 1) && text_bit(x0 as int, y0 as int, text, px, py) {
                                        c
                                    } else {
                                        old(self).pix(px, py)
                                    } by {
                                    assert(before.pix(px, py) == before.pix(px, py));
                                    if px == x && py == y {
                                        assert(text_bit(x0 as int, y0 as int, text, px, py) == on);
                                    } else {
                                        if text_done(x0 as int, y0 as int, px, py, k as int, row as int, col + 1) != text_done(x0 as int, y0 as int, px, py, k as int, row as int, col as int) {
                                            let dx = px - x0;
                                            assert(dx / 8 == k && py - y0 == row && dx % 8 == col);
                                            assert(dx == (dx / 8) * 8 + dx % 8) by {
                                                vstd::arithmetic::div_mod::lemma_fundamental_div_mod(dx, 8);
                                            }
                                            assert(false);
                                        }
                                    }
                                }
                            }
                            col += 1;
                        }
                        proof {
                            assert forall|px: int, py: int|
                                0 <= px < w && 0 <= py < h implies #[trigger] self.pix(px, py) == if text_done(x0 as int, y0 as int, px, py, k as int, row + 1, 0) && text_bit(x0 as int, y0 as int, text, px, py) {
                                    c
                                } else {
                                    old(self).pix(px, py)
                                } by {
                                let dx = px - x0;
                                vstd::arithmetic::div_mod::lemma_mod_bound(dx, 8);
                            }
                        }
                        row += 1;
                    }
                    proof {
                        assert forall|px: int, py: int|
                            0 <= px < w && 0 <= py < h implies #[trigger] self.pix(px, py) == if text_done(x0 as int, y0 as int, px, py, k + 1, 0, 0) && text_bit(x0 as int, y0 as int, text, px, py) {
                                c
                            } else {
                                old(self).pix(px, py)
                            } by {
                        }
                    }
                },
                None => {
                    proof {
                        assert forall|px: int, py: int|
                            0 <= px < w && 0 <= py < h implies #[trigger] self.pix(px, py) == if text_done(x0 as int, y0 as int, px, py, k + 1, 0, 0) && text_bit(x0 as int, y0 as int, text, px, py) {
                                c
                            } else {
                                old(self).pix(px, py)
                            } by {
                        }
                    }
                },
            }
            k += 1;
        }
        proof {
            assert forall|px: int, py: int|
                0 <= px < w && 0 <= py < h implies #[trigger] self.pix(px, py) == if text_bit(x0 as int, y0 as int, text, px, py) {
                    c
                } else {
                    old(self).pix(px, py)
                } by {
                if text_bit(x0 as int, y0 as int, text, px, py) {
                    let dx = px - x0;
                    assert(dx / 8 < len) by {
                        vstd::arithmetic::div_mod::lemma_fundamental_div_mod(dx, 8);
                        vstd::arithmetic::div_mod::lemma_mod_bound(dx, 8);
                    }
                }
            }
        }
    }
}

impl Canvas {
    /// Byte i of the image in RGBA order: channel i % 4 of pixel i / 4,
    /// pixels row-major.
    pub open spec fn rgba_byte(&self, i: int) -> u8 {
        self.pix((i / 4) % self.width_view(), (i / 4) / self.width_view())[i % 4]
    }

    /// The image as RGBA bytes, row-major.
    pub open spec fn rgba_bytes(&self) -> Seq<u8> {
        Seq::new((4 * self.width_view() * self.height_view()) as nat, |i: int| self.rgba_byte(i))
    }

    /// The pixels as RGBA bytes, row-major.
    pub fn to_rgba(&self) -> (out: Vec<u8>)
        requires
            self.wf(),
            4 * self.width_view() * self.height_view() <= usize::MAX,
        ensures
            out@ == self.rgba_bytes(),
    {
        let n = self.pixels.len();
        let ghost w = self.width as int;
        proof {
            assert(4 * (w * self.height) == 4 * w * self.height) by (nonlinear_arith);
        }
        let mut out: Vec<u8> = Vec::new();
        let mut p: usize = 0;
        while p < n
            invariant
                n == self.pixels@.len(),
                n == self.width * self.height,
                4 * n <= usize::MAX,
                p <= n,
                out@.len() == 4 * p,
                forall|i: int| 0 <= i < out@.len() ==> #[trigger] out@[i] == self.pixels@[i / 4][i % 4],
            decreases n - p,
        {
            let px = self.pixels[p];
            let ghost before = out@;
            out.push(px[0]);
            out.push(px[1]);
            out.push(px[2]);
            out.push(px[3]);
            proof {
                assert forall|i: int| 0 <= i < out@.len() implies #[trigger] out@[i] == self.pixels@[i / 4][i % 4] by {
                    if i < 4 * p {
                        assert(out@[i] == before[i]);
                    } else {
                        assert(i / 4 == p as int);
                    }
                }
            }
            p += 1;
        }
        proof {
            assert forall|i: int| 0 <= i < out@.len() implies #[trigger] out@[i] == self.rgba_byte(i) by {
                let k = i / 4;
                assert(0 <= k < n);
                assert(w > 0) by (nonlinear_arith)
                    requires
                        0 <= k < n,
                        n == w * self.height,
                        w >= 0,
                        self.height >= 0,
                ;
                vstd::arithmetic::div_mod::lemma_fundamental_div_mod(k, w);
                assert(k == (k / w) * w + k % w) by (nonlinear_arith)
                    requires
                        k == w * (k / w) + k % w,
                ;
            }
            assert(out@ =~= self.rgba_bytes());
        }
        out
    }

    /// Encode the canvas as a PNG file; this succeeds exactly when the
    /// canvas has at least one column and one row.
    pub fn encode_png(&self) -> (r: Result<Vec<u8>, PngError>)
        requires
            self.wf(),
            4 * self.width_view() * self.height_view() <= usize::MAX,
        ensures
            r matches Ok(bytes) ==> bytes@ == png_encoding(
                self.width_view() as u32,
                self.height_view() as u32,
                self.rgba_bytes(),
            ),
            r matches Ok(bytes) ==> bytes@.len() >= 8 && bytes@.subrange(0, 8) == png_signature(),
            r is Ok <==> self.width_view() > 0 && self.height_view() > 0,
            r is Err ==> r == Err::<Vec<u8>, PngError>(PngError::EncodingFailed),
    {
        let rgba = self.to_rgba();
        match png_of_rgba(self.width, self.height, rgba.as_slice()) {
            Ok(bytes) => Ok(bytes),
            Err(_) => Err(PngError::EncodingFailed),
        }
    }
}

} // verus!
