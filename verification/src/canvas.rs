//! RGB images: drawing, copying and lettering.

use vstd::prelude::*;
use vstd::string::*;
use crate::region::{frame, pixel_in_frame, pixel_inside};

verus! {

/// An 8-bit RGB image, row by row from the top.
#[derive(Clone, Debug)]
pub struct Canvas {
    pub width: u32,
    pub height: u32,
    pub pixels: Vec<[u8; 3]>,
}

/// White.
pub const WHITE: [u8; 3] = [255, 255, 255];

impl Canvas {
    /// There is one pixel for each place of the image.
    pub open spec fn wf(self) -> bool {
        frame(self.width, self.height, self.pixels@.len() as int)
    }

    /// The colour at a place of the image.
    pub open spec fn at(self, x: int, y: int) -> [u8; 3] {
        self.pixels@[y * self.width + x]
    }

    /// The place lies in the image.
    pub open spec fn holds(self, x: int, y: int) -> bool {
        0 <= x < self.width && 0 <= y < self.height
    }

    /// An image of one colour.
    pub fn filled(width: u32, height: u32, color: [u8; 3]) -> (c: Canvas)
        requires
            width * height <= u32::MAX,
        ensures
            c.wf(),
            c.width == width,
            c.height == height,
            forall|i: int|
                #![trigger c.pixels@[i]]
                0 <= i < c.pixels@.len() ==> c.pixels@[i] == color,
    {
        let n = (width as u64 * height as u64) as usize;
        let mut pixels: Vec<[u8; 3]> = Vec::new();
        let mut i: usize = 0;
        while i < n
            invariant
                i <= n,
                pixels@.len() == i,
                forall|k: int| #![trigger pixels@[k]] 0 <= k < i ==> pixels@[k] == color,
            decreases n - i,
        {
            pixels.push(color);
            i += 1;
        }
        Canvas { width, height, pixels }
    }

    /// Sets the colour at a place; places outside the image are ignored.
    pub fn put(&mut self, x: i64, y: i64, color: [u8; 3])
        requires
            old(self).wf(),
        ensures
            final(self).wf(),
            final(self).width == old(self).width,
            final(self).height == old(self).height,
            final(self).pixels@ == if old(self).holds(x as int, y as int) {
                old(self).pixels@.update(y * old(self).width + x, color)
            } else {
                old(self).pixels@
            },
    {
        if x >= 0 && y >= 0 && x < self.width as i64 && y < self.height as i64 {
            proof {
                pixel_inside(
                    self.width,
                    self.height,
                    self.pixels@.len() as int,
                    x as int,
                    y as int,
                );
                assert(0 <= y * self.width <= y * self.width + x);
            }
            let i = (y as u64 * self.width as u64 + x as u64) as usize;
            self.pixels.set(i, color);
        }
    }

    /// The colour at a place of the image.
    pub fn get(&self, x: u32, y: u32) -> (color: [u8; 3])
        requires
            self.wf(),
            x < self.width,
            y < self.height,
        ensures
            color == self.at(x as int, y as int),
    {
        proof {
            pixel_inside(
                self.width,
                self.height,
                self.pixels@.len() as int,
                x as int,
                y as int,
            );
            assert(0 <= y * self.width <= y * self.width + x);
        }
        self.pixels[(y as u64 * self.width as u64 + x as u64) as usize]
    }
}

/// A white image, for cells of a sheet with nothing to show.
pub fn make_empty_thumb(width: u32, height: u32) -> (c: Canvas)
    requires
        width * height <= u32::MAX,
    ensures
        c.wf(),
        c.width == width,
        c.height == height,
        forall|i: int|
            #![trigger c.pixels@[i]]
            0 <= i < c.pixels@.len() ==> c.pixels@[i] == WHITE,
{
    Canvas::filled(width, height, WHITE)
}

/// An image of one colour, to show the colour.
pub fn make_swatch_thumb(color: [u8; 3], width: u32, height: u32) -> (c: Canvas)
    requires
        width * height <= u32::MAX,
    ensures
        c.wf(),
        c.width == width,
        c.height == height,
        forall|i: int|
            #![trigger c.pixels@[i]]
            0 <= i < c.pixels@.len() ==> c.pixels@[i] == color,
{
    Canvas::filled(width, height, color)
}

/// The number of the swatch at column `x`: equal widths, what is left over goes
/// to the last.
pub open spec fn swatch_at(x: int, width: int, n: int) -> int {
    let i = x / (width / n);
    if i < n - 1 {
        i
    } else {
        n - 1
    }
}

/// An image of vertical bars, one for each colour; white where there are none.
pub fn make_palette_thumb(colors: &[[u8; 3]], width: u32, height: u32) -> (c: Canvas)
    requires
        width * height <= u32::MAX,
        colors@.len() <= width,
    ensures
        c.wf(),
        c.width == width,
        c.height == height,
        forall|i: int|
            #![trigger c.pixels@[i]]
            0 <= i < c.pixels@.len() ==> c.pixels@[i] == if colors@.len() == 0 {
                WHITE
            } else {
                colors@[swatch_at(i % (width as int), width as int, colors@.len() as int)]
            },
{
    if colors.len() == 0 {
        return make_empty_thumb(width, height);
    }
    let n = colors.len();
    let bar: usize = width as usize / n;
    let total = (width as u64 * height as u64) as usize;
    let mut pixels: Vec<[u8; 3]> = Vec::new();
    proof {
        assert(1 <= bar <= width) by (nonlinear_arith)
            requires
                bar == width as int / n as int,
                1 <= n <= width,
        ;
    }
    let mut i: usize = 0;
    while i < total
        invariant
            i <= total,
            total == width * height,
            total <= u32::MAX,
            n == colors@.len(),
            1 <= n <= width,
            bar == width as int / n as int,
            1 <= bar,
            pixels@.len() == i,
            forall|k: int|
                #![trigger pixels@[k]]
                0 <= k < i ==> pixels@[k] == colors@[swatch_at(
                    k % (width as int),
                    width as int,
                    n as int,
                )],
        decreases total - i,
    {
        let x = i % (width as usize);
        let q: usize = x / bar;
        let at: usize = if q < n - 1 {
            q
        } else {
            n - 1
        };
        proof {
            assert(0 <= x as int / bar as int) by (nonlinear_arith)
                requires
                    x >= 0,
                    bar >= 1,
            ;
        }
        pixels.push(colors[at]);
        i += 1;
    }
    Canvas { width, height, pixels }
}

/// Pixel `i` of an image with another one laid over it at `(ox, oy)`, clipped to
/// the image.
pub open spec fn laid_over(base: Canvas, top: Canvas, ox: int, oy: int, i: int) -> [u8; 3] {
    let x = i % (base.width as int) - ox;
    let y = i / (base.width as int) - oy;
    if top.holds(x, y) {
        top.at(x, y)
    } else {
        base.pixels@[i]
    }
}

/// The colours of a palette stand side by side in their order: the first at the
/// left edge, the last at the right edge, and each but the last as wide as an
/// equal share.
pub proof fn swatches_stand_in_order(x: int, width: int, n: int)
    requires
        0 <= x < width,
        1 <= n <= width,
    ensures
        0 <= swatch_at(x, width, n) < n,
        swatch_at(0, width, n) == 0,
        swatch_at(width - 1, width, n) == n - 1,
        swatch_at(x, width, n) < n - 1 ==> swatch_at(x, width, n) * (width / n) <= x < (swatch_at(
            x,
            width,
            n,
        ) + 1) * (width / n),
        swatch_at(x, width, n) == n - 1 ==> (n - 1) * (width / n) <= x,
{
    let s = width / n;
    assert(s >= 1) by (nonlinear_arith)
        requires
            s == width / n,
            1 <= n <= width,
    ;
    assert(n * s <= width) by (nonlinear_arith)
        requires
            s == width / n,
            1 <= n,
            0 <= width,
    ;
    let i = x / s;
    assert(i * s <= x < (i + 1) * s && 0 <= i) by (nonlinear_arith)
        requires
            i == x / s,
            s >= 1,
            0 <= x,
    ;
    let last = (width - 1) / s;
    assert(last >= n - 1) by (nonlinear_arith)
        requires
            last == (width - 1) / s,
            s >= 1,
            n * s <= width,
            n >= 1,
    ;
    assert(0int / s == 0) by (nonlinear_arith)
        requires
            s >= 1,
    ;
    if i >= n - 1 {
        assert((n - 1) * s <= i * s) by (nonlinear_arith)
            requires
                n - 1 <= i,
                s >= 1,
        ;
    }
}

/// A picture laid over another shows at its place, pixel by pixel, and the other
/// shows everywhere else.
pub proof fn laid_picture_shows(base: Canvas, top: Canvas, ox: int, oy: int, x: int, y: int)
    requires
        base.wf(),
        top.wf(),
        0 <= ox,
        0 <= oy,
        0 <= x < base.width,
        0 <= y < base.height,
    ensures
        ox <= x < ox + top.width && oy <= y < oy + top.height ==> laid_over(
            base,
            top,
            ox,
            oy,
            y * base.width + x,
        ) == top.pixels@[(y - oy) * top.width + (x - ox)],
        !(ox <= x < ox + top.width && oy <= y < oy + top.height) ==> laid_over(
            base,
            top,
            ox,
            oy,
            y * base.width + x,
        ) == base.pixels@[y * base.width + x],
{
    pixel_inside(base.width, base.height, base.pixels@.len() as int, x, y);
}

/// Lays an image over another at `(ox, oy)`; what lies outside is cut off.
pub fn overlay(base: &mut Canvas, top: &Canvas, ox: u32, oy: u32)
    requires
        old(base).wf(),
        top.wf(),
    ensures
        final(base).wf(),
        final(base).width == old(base).width,
        final(base).height == old(base).height,
        forall|i: int|
            #![trigger final(base).pixels@[i]]
            0 <= i < final(base).pixels@.len() ==> final(base).pixels@[i] == laid_over(
                *old(base),
                *top,
                ox as int,
                oy as int,
                i,
            ),
{
    let ghost start = *base;
    let n = top.pixels.len();
    let mut k: usize = 0;
    while k < n
        invariant
            k <= n,
            n == top.pixels@.len(),
            top.wf(),
            start.wf(),
            base.wf(),
            base.width == start.width,
            base.height == start.height,
            forall|i: int|
                #![trigger base.pixels@[i]]
                0 <= i < base.pixels@.len() ==> base.pixels@[i] == if covered(
                    start,
                    *top,
                    ox as int,
                    oy as int,
                    i,
                    k as int,
                ) {
                    laid_over(start, *top, ox as int, oy as int, i)
                } else {
                    start.pixels@[i]
                },
        decreases n - k,
    {
        proof {
            pixel_in_frame(top.width, top.height, n as int, k as int);
        }
        let tx = k % (top.width as usize);
        let ty = k / (top.width as usize);
        let x = ox as i64 + tx as i64;
        let y = oy as i64 + ty as i64;
        let color = top.pixels[k];
        let ghost before = base.pixels@;
        base.put(x, y, color);
        proof {
            let rx = ox + k as int % (top.width as int);
            let ry = oy + k as int / (top.width as int);
            assert(x == rx && y == ry);
            assert(y * start.width + x == ry * start.width + rx);
            assert forall|i: int| #![trigger base.pixels@[i]] 0 <= i < base.pixels@.len() implies base.pixels@[i]
                == if covered(start, *top, ox as int, oy as int, i, k + 1) {
                laid_over(start, *top, ox as int, oy as int, i)
            } else {
                start.pixels@[i]
            } by {
                overlay_step(start, *top, ox as int, oy as int, i, k as int);
                if start.holds(rx, ry) {
                    pixel_inside(start.width, start.height, start.pixels@.len() as int, rx, ry);
                }
                let here = start.holds(rx, ry) && i == ry * start.width + rx;
                assert(base.pixels@[i] == if here {
                    color
                } else {
                    before[i]
                });
                assert(before[i] == if covered(start, *top, ox as int, oy as int, i, k as int) {
                    laid_over(start, *top, ox as int, oy as int, i)
                } else {
                    start.pixels@[i]
                });
            }
        }
        k += 1;
    }
    proof {
        assert forall|i: int| #![trigger base.pixels@[i]] 0 <= i < base.pixels@.len() implies base.pixels@[i]
            == laid_over(start, *top, ox as int, oy as int, i) by {
            overlay_done(start, *top, ox as int, oy as int, i);
        }
    }
}

/// Pixel `i` of the base lies under one of the first `k` pixels of the top.
spec fn covered(base: Canvas, top: Canvas, ox: int, oy: int, i: int, k: int) -> bool {
    let x = i % (base.width as int) - ox;
    let y = i / (base.width as int) - oy;
    top.holds(x, y) && y * top.width + x < k
}

proof fn overlay_step(base: Canvas, top: Canvas, ox: int, oy: int, i: int, k: int)
    requires
        base.wf(),
        top.wf(),
        0 <= i < base.pixels@.len(),
        0 <= k < top.pixels@.len(),
        0 <= ox,
        0 <= oy,
    ensures
        ({
            let tx = k % (top.width as int);
            let ty = k / (top.width as int);
            let here = base.holds(ox + tx, oy + ty) && i == (oy + ty) * base.width + (ox + tx);
            &&& here ==> covered(base, top, ox, oy, i, k + 1) && laid_over(base, top, ox, oy, i)
                == top.pixels@[k]
            &&& !here ==> covered(base, top, ox, oy, i, k + 1) == covered(base, top, ox, oy, i, k)
        }),
{
    let tx = k % (top.width as int);
    let ty = k / (top.width as int);
    pixel_in_frame(base.width, base.height, base.pixels@.len() as int, i);
    pixel_in_frame(top.width, top.height, top.pixels@.len() as int, k);
    if base.holds(ox + tx, oy + ty) {
        pixel_inside(
            base.width,
            base.height,
            base.pixels@.len() as int,
            ox + tx,
            oy + ty,
        );
    }
    let x = i % (base.width as int) - ox;
    let y = i / (base.width as int) - oy;
    if top.holds(x, y) {
        pixel_inside(top.width, top.height, top.pixels@.len() as int, x, y);
    }
}

proof fn overlay_done(base: Canvas, top: Canvas, ox: int, oy: int, i: int)
    requires
        base.wf(),
        top.wf(),
        0 <= i < base.pixels@.len(),
    ensures
        laid_over(base, top, ox, oy, i) == if covered(
            base,
            top,
            ox,
            oy,
            i,
            top.pixels@.len() as int,
        ) {
            laid_over(base, top, ox, oy, i)
        } else {
            base.pixels@[i]
        },
{
    let x = i % (base.width as int) - ox;
    let y = i / (base.width as int) - oy;
    if top.holds(x, y) {
        pixel_inside(top.width, top.height, top.pixels@.len() as int, x, y);
    }
}

/// The eight rows of a character's glyph, the lowest bit leftmost.
pub uninterp spec fn glyph_rows(code: int) -> Seq<u8>;

/// Reads entry `code` of `font8x8::legacy::BASIC_LEGACY`, a table of 128 glyphs
/// of eight bytes each. What the glyphs look like is not stated.
#[verifier::external_body]
fn glyph(code: usize) -> (rows: [u8; 8])
    requires
        code < 128,
    ensures
        rows@ == glyph_rows(code as int),
        rows@.len() == 8,
{
    font8x8::legacy::BASIC_LEGACY[code]
}

/// The glyph of `code` sets the pixel at `(col, row)`.
pub open spec fn inked(code: u8, col: int, row: int) -> bool {
    &&& code < 128
    &&& 0 <= col < 8
    &&& 0 <= row < 8
    &&& (glyph_rows(code as int)[row] as int / vstd::arithmetic::power2::pow2(col as nat) as int)
        % 2 == 1
}

/// Letter `k` of a text at `(x, y)` sets the place `(px, py)`: letters are eight
/// pixels wide and high.
pub open spec fn letter_inks(
    bytes: Seq<u8>,
    k: int,
    x: int,
    y: int,
    px: int,
    py: int,
) -> bool {
    inked(bytes[k], px - x - 8 * k, py - y)
}

/// One of the first `m` letters of a text sets the place.
pub open spec fn text_inks(bytes: Seq<u8>, m: int, x: int, y: int, px: int, py: int) -> bool {
    exists|k: int| 0 <= k < m && #[trigger] letter_inks(bytes, k, x, y, px, py)
}

fn bit_set(v: u8, col: u8) -> (b: bool)
    requires
        col < 8,
    ensures
        b == ((v as int / vstd::arithmetic::power2::pow2(col as nat) as int) % 2 == 1),
{
    proof {
        vstd::bits::lemma_u8_shr_is_div(v, col);
        let q = v >> col;
        assert(q & 1 == q % 2) by (bit_vector);
    }
    (v >> col) & 1 != 0
}

/// Pixel `i` of a canvas after the first `m` letters have been drawn.
pub open spec fn lettered(
    c: Canvas,
    bytes: Seq<u8>,
    m: int,
    x: int,
    y: int,
    color: [u8; 3],
    i: int,
) -> [u8; 3] {
    if text_inks(bytes, m, x, y, i % (c.width as int), i / (c.width as int)) {
        color
    } else {
        c.pixels@[i]
    }
}

/// Text moves with its origin.
pub proof fn text_moves(
    bytes: Seq<u8>,
    m: int,
    x: int,
    y: int,
    px: int,
    py: int,
    dx: int,
    dy: int,
)
    ensures
        text_inks(bytes, m, x + dx, y + dy, px + dx, py + dy) == text_inks(bytes, m, x, y, px, py),
{
    if text_inks(bytes, m, x, y, px, py) {
        let k = choose|k: int| 0 <= k < m && #[trigger] letter_inks(bytes, k, x, y, px, py);
        assert(letter_inks(bytes, k, x + dx, y + dy, px + dx, py + dy));
    }
    if text_inks(bytes, m, x + dx, y + dy, px + dx, py + dy) {
        let k = choose|k: int|
            0 <= k < m && #[trigger] letter_inks(bytes, k, x + dx, y + dy, px + dx, py + dy);
        assert(letter_inks(bytes, k, x, y, px, py));
    }
}

/// Letters stand side by side, eight pixels apart: a joined text is drawn as its
/// parts are, the second where the first ends.
pub proof fn texts_join(a: Seq<u8>, b: Seq<u8>, x: int, y: int, px: int, py: int)
    ensures
        text_inks(a + b, (a.len() + b.len()) as int, x, y, px, py) <==> text_inks(
            a,
            a.len() as int,
            x,
            y,
            px,
            py,
        ) || text_inks(b, b.len() as int, x + 8 * a.len(), y, px, py),
{
    let ab = a + b;
    let n = a.len() as int;
    if text_inks(a, n, x, y, px, py) {
        let k = choose|k: int| 0 <= k < n && #[trigger] letter_inks(a, k, x, y, px, py);
        assert(ab[k] == a[k]);
        assert(letter_inks(ab, k, x, y, px, py));
    }
    if text_inks(b, b.len() as int, x + 8 * a.len(), y, px, py) {
        let k = choose|k: int|
            0 <= k < b.len() && #[trigger] letter_inks(b, k, x + 8 * a.len(), y, px, py);
        assert(ab[n + k] == b[k]);
        assert(letter_inks(ab, n + k, x, y, px, py));
    }
    if text_inks(ab, (a.len() + b.len()) as int, x, y, px, py) {
        let k = choose|k: int|
            0 <= k < a.len() + b.len() && #[trigger] letter_inks(ab, k, x, y, px, py);
        if k < n {
            assert(ab[k] == a[k]);
            assert(letter_inks(a, k, x, y, px, py));
        } else {
            assert(ab[k] == b[k - n]);
            assert(letter_inks(b, k - n, x + 8 * a.len(), y, px, py));
        }
    }
}

/// A letter has ink only within its eight by eight pixels, and the lowest bit of a
/// row is its leftmost pixel, the highest its rightmost.
pub proof fn letters_fill_their_square(code: u8, col: int, row: int)
    ensures
        inked(code, col, row) ==> 0 <= col < 8 && 0 <= row < 8 && code < 128,
        code < 128 && 0 <= row < 8 ==> (inked(code, 0, row) <==> glyph_rows(code as int)[row] % 2
            == 1),
        code < 128 && 0 <= row < 8 ==> (inked(code, 7, row) <==> glyph_rows(code as int)[row]
            >= 128),
{
    vstd::arithmetic::power2::lemma2_to64();
    if code < 128 && 0 <= row < 8 {
        let v = glyph_rows(code as int)[row] as int;
        assert(vstd::arithmetic::power2::pow2(0) == 1);
        assert(vstd::arithmetic::power2::pow2(7) == 128);
        assert(v / 1 == v);
        assert((v / 128) % 2 == 1 <==> v >= 128);
    }
}

/// Draws a text with its upper left corner at `(x, y)`, eight pixels to a byte;
/// bytes outside ASCII leave a gap, and what lies outside the canvas is cut off.
pub fn draw_text_rgb(canvas: &mut Canvas, text: &str, x: i32, y: i32, color: [u8; 3])
    requires
        old(canvas).wf(),
        text.spec_bytes().len() <= 0x1000_0000,
    ensures
        final(canvas).wf(),
        final(canvas).width == old(canvas).width,
        final(canvas).height == old(canvas).height,
        forall|i: int|
            #![trigger final(canvas).pixels@[i]]
            0 <= i < final(canvas).pixels@.len() ==> final(canvas).pixels@[i] == lettered(
                *old(canvas),
                text.spec_bytes(),
                text.spec_bytes().len() as int,
                x as int,
                y as int,
                color,
                i,
            ),
{
    let bytes = text.as_bytes();
    let ghost b = bytes@;
    let ghost start = *canvas;
    let mut k: usize = 0;
    while k < bytes.len()
        invariant
            k <= bytes@.len(),
            b == bytes@,
            b.len() <= 0x1000_0000,
            start.wf(),
            canvas.wf(),
            canvas.width == start.width,
            canvas.height == start.height,
            forall|i: int|
                #![trigger canvas.pixels@[i]]
                0 <= i < canvas.pixels@.len() ==> canvas.pixels@[i] == lettered(
                    start,
                    b,
                    k as int,
                    x as int,
                    y as int,
                    color,
                    i,
                ),
        decreases bytes@.len() - k,
    {
        let ghost before = *canvas;
        draw_letter(canvas, bytes[k], x as i64 + 8 * k as i64, y as i64, color);
        proof {
            assert forall|i: int|
                #![trigger canvas.pixels@[i]]
                0 <= i < canvas.pixels@.len() implies canvas.pixels@[i] == lettered(
                start,
                b,
                k + 1,
                x as int,
                y as int,
                color,
                i,
            ) by {
                let px = i % (start.width as int);
                let py = i / (start.width as int);
                assert(before.pixels@[i] == lettered(
                    start,
                    b,
                    k as int,
                    x as int,
                    y as int,
                    color,
                    i,
                ));
                if letter_inks(b, k as int, x as int, y as int, px, py) {
                    assert(text_inks(b, k + 1, x as int, y as int, px, py));
                } else if text_inks(b, k + 1, x as int, y as int, px, py) {
                    let q = choose|q: int|
                        0 <= q < k + 1 && #[trigger] letter_inks(
                            b,
                            q,
                            x as int,
                            y as int,
                            px,
                            py,
                        );
                    assert(text_inks(b, k as int, x as int, y as int, px, py));
                }
            }
        }
        k += 1;
    }
}

/// Draws one letter.
fn draw_letter(canvas: &mut Canvas, code: u8, x: i64, y: i64, color: [u8; 3])
    requires
        old(canvas).wf(),
        -0x8000_0000 <= x <= 0x1_0000_0000,
        -0x8000_0000 <= y <= 0x8000_0000,
    ensures
        final(canvas).wf(),
        final(canvas).width == old(canvas).width,
        final(canvas).height == old(canvas).height,
        forall|i: int|
            #![trigger final(canvas).pixels@[i]]
            0 <= i < final(canvas).pixels@.len() ==> final(canvas).pixels@[i] == if inked(
                code,
                i % (old(canvas).width as int) - x,
                i / (old(canvas).width as int) - y,
            ) {
                color
            } else {
                old(canvas).pixels@[i]
            },
{
    if code >= 128 {
        return;
    }
    let rows = glyph(code as usize);
    let ghost start = *canvas;
    let mut row: usize = 0;
    while row < 8
        invariant
            row <= 8,
            code < 128,
            rows@ == glyph_rows(code as int),
            rows@.len() == 8,
            start.wf(),
            canvas.wf(),
            canvas.width == start.width,
            canvas.height == start.height,
            -0x8000_0000 <= x <= 0x1_0000_0000,
            -0x8000_0000 <= y <= 0x8000_0000,
            forall|i: int|
                #![trigger canvas.pixels@[i]]
                0 <= i < canvas.pixels@.len() ==> canvas.pixels@[i] == partial_letter(
                    start,
                    code,
                    x as int,
                    y as int,
                    color,
                    i,
                    row as int,
                    0,
                ),
        decreases 8 - row,
    {
        let data = rows[row];
        let mut col: u8 = 0;
        while col < 8
            invariant
                col <= 8,
                row < 8,
                code < 128,
                rows@ == glyph_rows(code as int),
                data == glyph_rows(code as int)[row as int],
                start.wf(),
                canvas.wf(),
                canvas.width == start.width,
                canvas.height == start.height,
                -0x8000_0000 <= x <= 0x1_0000_0000,
                -0x8000_0000 <= y <= 0x8000_0000,
                forall|i: int|
                    #![trigger canvas.pixels@[i]]
                    0 <= i < canvas.pixels@.len() ==> canvas.pixels@[i] == partial_letter(
                        start,
                        code,
                        x as int,
                        y as int,
                        color,
                        i,
                        row as int,
                        col as int,
                    ),
            decreases 8 - col,
        {
            let ghost before = *canvas;
            let set = bit_set(data, col);
            if set {
                canvas.put(x + col as i64, y + row as i64, color);
            }
            proof {
                assert forall|i: int|
                    #![trigger canvas.pixels@[i]]
                    0 <= i < canvas.pixels@.len() implies canvas.pixels@[i] == partial_letter(
                    start,
                    code,
                    x as int,
                    y as int,
                    color,
                    i,
                    row as int,
                    col + 1,
                ) by {
                    pixel_in_frame(start.width, start.height, start.pixels@.len() as int, i);
                    if before.holds(x + col, y + row) {
                        pixel_inside(
                            start.width,
                            start.height,
                            start.pixels@.len() as int,
                            x + col,
                            y + row,
                        );
                    }
                    assert(before.pixels@[i] == partial_letter(
                        start,
                        code,
                        x as int,
                        y as int,
                        color,
                        i,
                        row as int,
                        col as int,
                    ));
                }
            }
            col += 1;
        }
        row += 1;
    }
}

/// Pixel `i` after the rows of a letter above `row`, and of that row the columns
/// before `col`, have been drawn.
spec fn partial_letter(
    c: Canvas,
    code: u8,
    x: int,
    y: int,
    color: [u8; 3],
    i: int,
    row: int,
    col: int,
) -> [u8; 3] {
    let px = i % (c.width as int) - x;
    let py = i / (c.width as int) - y;
    if inked(code, px, py) && (py < row || (py == row && px < col)) {
        color
    } else {
        c.pixels@[i]
    }
}

} // verus!
