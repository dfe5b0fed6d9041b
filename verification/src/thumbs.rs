//! Thumbnails, and the contact sheets made of them.

use vstd::prelude::*;
use vstd::string::*;
use vstd::utf8::{encode_scalar, encode_utf8};
use crate::canvas::{make_empty_thumb, make_palette_thumb, make_swatch_thumb, swatch_at, Canvas, WHITE};
use crate::dims::{
    filling_up_aligns, fit_dimensions, fit_long_side, fitted, fitted_long, fitting_limits,
    long_side_limits, rows_for,
};
use crate::encoding::{flat, flatten, image_to_base64_jpeg, jpeg_bytes, text_of, uri_or, EncodeError};
use crate::names::{
    feature_label, feature_label_short, fuse_display_name, fused_label, fused_label_short,
    map_label, map_label_short, shorten_feature_name, shorten_name,
};
use crate::params::ContactSheetParams;
use crate::region::frame;
use crate::scalar::Scalar;
use crate::sheet::{
    cell_height, compose_sheet, cut_to, drawable, full_cells, full_rows, layout_full, layout_small,
    sheet_pixel, small_cells, texts, Cell, Grid,
};
use crate::text::{hex_value, parse_hex};

verus! {

/// A colour of a palette, with its share of the image.
#[derive(Clone, Debug)]
pub struct PaletteEntry {
    pub rgb: [Scalar; 3],
    pub hex: String,
    pub proportion: Scalar,
}

/// `out` is an outcome of resampling `src` from `w` by `h` to `nw` by `nh` pixels.
pub uninterp spec fn resampled(
    src: Seq<[u8; 3]>,
    w: int,
    h: int,
    nw: int,
    nh: int,
    out: Seq<[u8; 3]>,
) -> bool;

/// Calls `image::imageops::resize` with the Lanczos filter on an RGB image. The
/// result has the size asked for, and is a copy where that is the image's own
/// size. Its pixels come from a sine whose last digits differ between machines:
/// they are stated only to be an outcome of this resampling.
#[verifier::external_body]
fn resize_pixels(src: &[[u8; 3]], w: u32, h: u32, nw: u32, nh: u32) -> (out: Vec<[u8; 3]>)
    requires
        frame(w, h, src@.len() as int),
        1 <= w <= 0x80_0000,
        1 <= h <= 0x80_0000,
        nw <= 0x80_0000,
        nh <= 0x80_0000,
        3 * (w * h) <= isize::MAX,
        16 * (w * nh) <= isize::MAX,
        3 * (nw * nh) <= isize::MAX,
    ensures
        out@.len() == nw * nh,
        nw == w && nh == h ==> out@ == src@,
        resampled(src@, w as int, h as int, nw as int, nh as int, out@),
{
    let bytes: Vec<u8> = src.as_flattened().to_vec();
    let img = image::RgbImage::from_raw(w, h, bytes).unwrap();
    let small = image::imageops::resize(&img, nw, nh, image::imageops::FilterType::Lanczos3);
    small.pixels().map(|p| p.0).collect()
}

/// The image can be shrunk to thumbnails of the given size.
pub open spec fn shrinkable(w: u32, h: u32, nw: u32, nh: u32) -> bool {
    &&& 1 <= w <= 0x80_0000
    &&& 1 <= h <= 0x80_0000
    &&& w * h <= u32::MAX
    &&& 16 * (w * h) <= isize::MAX
    &&& nw <= w
    &&& nh <= h
}

/// `c` shows the image `src`, resampled.
pub open spec fn shows_image(src: Seq<[u8; 3]>, w: u32, h: u32, nw: u32, nh: u32, c: Canvas) -> bool {
    &&& c.wf()
    &&& c.width == nw
    &&& c.height == nh
    &&& nw == w && nh == h ==> c.pixels@ == src
    &&& resampled(src, w as int, h as int, nw as int, nh as int, c.pixels@)
}

/// `c` shows one colour.
pub open spec fn shows_color(color: [u8; 3], nw: u32, nh: u32, c: Canvas) -> bool {
    &&& c.wf()
    &&& c.width == nw
    &&& c.height == nh
    &&& forall|i: int| #![trigger c.pixels@[i]] 0 <= i < c.pixels@.len() ==> c.pixels@[i] == color
}

/// Shrinks an image until its longer side is at most `max_dim`; a smaller image
/// is kept as it is.
pub fn shrink_to_fit(src: &[[u8; 3]], w: u32, h: u32, max_dim: u32) -> (c: Canvas)
    requires
        frame(w, h, src@.len() as int),
        shrinkable(w, h, w, h),
        max_dim >= 1,
    ensures
        shows_image(
            src@,
            w,
            h,
            fitted(w, h, max_dim).0 as u32,
            fitted(w, h, max_dim).1 as u32,
            c,
        ),
        w <= max_dim && h <= max_dim ==> c.pixels@ == src@,
{
    let (nw, nh) = fit_dimensions(w, h, max_dim);
    proof {
        fitting_limits(w, h, max_dim);
    }
    make_thumb_rgb(src, w, h, nw, nh)
}

/// Shrinks an image until its longer side is `max_dim`; a smaller image is kept as
/// it is.
pub fn shrink_long_side(src: &[[u8; 3]], w: u32, h: u32, max_dim: u32) -> (c: Canvas)
    requires
        frame(w, h, src@.len() as int),
        shrinkable(w, h, w, h),
        max_dim >= 1,
    ensures
        shows_image(
            src@,
            w,
            h,
            fitted_long(w, h, max_dim).0 as u32,
            fitted_long(w, h, max_dim).1 as u32,
            c,
        ),
        w <= max_dim && h <= max_dim ==> c.pixels@ == src@,
{
    let (nw, nh) = fit_long_side(w, h, max_dim);
    proof {
        long_side_limits(w, h, max_dim);
    }
    make_thumb_rgb(src, w, h, nw, nh)
}

/// Shrinks an image to a preview of at most 200 pixels a side and gives its data
/// URI.
pub fn preview_uri(src: &[[u8; 3]], w: u32, h: u32) -> (r: Result<String, EncodeError>)
    requires
        frame(w, h, src@.len() as int),
        shrinkable(w, h, w, h),
    ensures
        exists|c: Canvas|
            {
                &&& #[trigger] shows_image(
                    src@,
                    w,
                    h,
                    fitted(w, h, 200).0 as u32,
                    fitted(w, h, 200).1 as u32,
                    c,
                )
                &&& text_of(r) == uri_or(
                    jpeg_bytes(flat(c.pixels@), c.width as int, c.height as int),
                    false,
                )
            },
{
    let c = shrink_to_fit(src, w, h, 200);
    let data = flatten(c.pixels.as_slice());
    image_to_base64_jpeg(data.as_slice(), c.width, c.height)
}

/// Grey levels as colours.
pub open spec fn grays(levels: Seq<u8>) -> Seq<[u8; 3]> {
    Seq::new(levels.len(), |i: int| [levels[i], levels[i], levels[i]])
}

/// `c` shows a map of grey levels; a map without levels is shown white.
pub open spec fn shows_map(levels: Seq<u8>, w: u32, h: u32, nw: u32, nh: u32, c: Canvas) -> bool {
    if levels.len() == 0 {
        shows_color(WHITE, nw, nh, c)
    } else {
        shows_image(grays(levels), w, h, nw, nh, c)
    }
}

/// A thumbnail of an image.
pub fn make_thumb_rgb(src: &[[u8; 3]], w: u32, h: u32, nw: u32, nh: u32) -> (c: Canvas)
    requires
        frame(w, h, src@.len() as int),
        shrinkable(w, h, nw, nh),
    ensures
        shows_image(src@, w, h, nw, nh, c),
{
    proof {
        smaller_product(w as int, h as int, nw as int, nh as int);
    }
    let pixels = resize_pixels(src, w, h, nw, nh);
    Canvas { width: nw, height: nh, pixels }
}

proof fn smaller_product(w: int, h: int, nw: int, nh: int)
    requires
        0 <= nw <= w,
        0 <= nh <= h,
    ensures
        0 <= nw * nh <= w * nh <= w * h,
{
    assert(0 <= nw * nh <= w * nh <= w * h) by (nonlinear_arith)
        requires
            0 <= nw <= w,
            0 <= nh <= h,
    ;
}

/// A thumbnail of a map of grey levels; white where there are no levels.
pub fn make_thumb_gray(levels: &[u8], w: u32, h: u32, nw: u32, nh: u32) -> (c: Canvas)
    requires
        levels@.len() == 0 || frame(w, h, levels@.len() as int),
        shrinkable(w, h, nw, nh),
    ensures
        shows_map(levels@, w, h, nw, nh, c),
{
    proof {
        smaller_product(w as int, h as int, nw as int, nh as int);
    }
    if levels.len() == 0 {
        return make_empty_thumb(nw, nh);
    }
    let mut src: Vec<[u8; 3]> = Vec::new();
    let mut i: usize = 0;
    while i < levels.len()
        invariant
            i <= levels@.len(),
            src@.len() == i,
            forall|k: int| #![trigger src@[k]] 0 <= k < i ==> src@[k] == grays(levels@)[k],
        decreases levels@.len() - i,
    {
        src.push([levels[i], levels[i], levels[i]]);
        i += 1;
    }
    assert(src@ =~= grays(levels@));
    make_thumb_rgb(&src, w, h, nw, nh)
}

/// The pictures of a sheet, each with its name.
pub struct Pictures<'a> {
    pub original: &'a [[u8; 3]],
    pub features: &'a [(&'a str, &'a [u8])],
    pub fused: &'a [(&'a str, &'a [u8])],
    pub extra: &'a [(&'a str, &'a [[u8; 3]])],
    pub swatches: [Option<[u8; 3]>; 3],
    pub palette: &'a [[u8; 3]],
    pub width: u32,
    pub height: u32,
    /// The names are shortened as on a small sheet.
    pub small: bool,
}

/// A name is short enough to be drawn.
pub open spec fn fair_name(name: Seq<char>) -> bool {
    name.len() <= 0x20_0000
}

/// A map has a fair name, and levels for the whole image or none.
pub open spec fn fair_map(m: (&str, &[u8]), w: u32, h: u32) -> bool {
    &&& fair_name(m.0@)
    &&& m.1@.len() == 0 || frame(w, h, m.1@.len() as int)
}

/// A composite image has a fair name and all its pixels.
pub open spec fn fair_extra(m: (&str, &[[u8; 3]]), w: u32, h: u32) -> bool {
    &&& fair_name(m.0@)
    &&& frame(w, h, m.1@.len() as int)
}

/// All maps are fair.
pub open spec fn fair_maps(maps: Seq<(&str, &[u8])>, w: u32, h: u32) -> bool {
    forall|i: int| 0 <= i < maps.len() ==> fair_map(#[trigger] maps[i], w, h)
}

/// All composite images are fair.
pub open spec fn fair_extras(maps: Seq<(&str, &[[u8; 3]])>, w: u32, h: u32) -> bool {
    forall|i: int| 0 <= i < maps.len() ==> fair_extra(#[trigger] maps[i], w, h)
}

impl<'a> Pictures<'a> {
    /// All pictures are fair.
    pub open spec fn wf(self) -> bool {
        &&& frame(self.width, self.height, self.original@.len() as int)
        &&& fair_maps(self.features@, self.width, self.height)
        &&& fair_maps(self.fused@, self.width, self.height)
        &&& fair_extras(self.extra@, self.width, self.height)
    }

    /// These are the pictures.
    pub open spec fn holds(
        self,
        original: Seq<[u8; 3]>,
        features: Seq<(&str, &[u8])>,
        fused: Seq<(&str, &[u8])>,
        extra: Seq<(&str, &[[u8; 3]])>,
        swatches: [Option<[u8; 3]>; 3],
        palette: Seq<[u8; 3]>,
        width: u32,
        height: u32,
        small: bool,
    ) -> bool {
        &&& self.original@ == original
        &&& self.features@ == features
        &&& self.fused@ == fused
        &&& self.extra@ == extra
        &&& self.swatches == swatches
        &&& self.palette@ == palette
        &&& self.width == width
        &&& self.height == height
        &&& self.small == small
    }

    /// There is a picture for a cell.
    pub open spec fn has(self, cell: Cell) -> bool {
        match cell {
            Cell::Feature(i) => i < self.features@.len(),
            Cell::Fused(i) => i < self.fused@.len(),
            Cell::Extra(i) => i < self.extra@.len(),
            Cell::Swatch(i) => i < 3 && self.swatches[i as int] is Some,
            _ => true,
        }
    }

    /// The label of a cell.
    pub open spec fn label(self, cell: Cell) -> Seq<char> {
        match cell {
            Cell::Blank => Seq::empty(),
            Cell::Original => "Original"@,
            Cell::Feature(i) => if self.small {
                map_label(self.features@[i as int].0@)
            } else {
                feature_label(self.features@[i as int].0@)
            },
            Cell::Fused(i) => if self.small {
                map_label(self.fused@[i as int].0@)
            } else {
                fused_label(self.fused@[i as int].0@)
            },
            Cell::Extra(i) => fused_label(self.extra@[i as int].0@),
            Cell::Swatch(i) => if i == 0 {
                "Imp Color"@
            } else if i == 1 {
                "Pred Color"@
            } else {
                "Region Color"@
            },
            Cell::Palette => "Palette"@,
        }
    }

    /// `c` shows what the cell is for.
    pub open spec fn shown(self, cell: Cell, nw: u32, nh: u32, c: Canvas) -> bool {
        let w = self.width;
        let h = self.height;
        match cell {
            Cell::Blank => shows_color(WHITE, nw, nh, c),
            Cell::Original => shows_image(self.original@, w, h, nw, nh, c),
            Cell::Feature(i) => shows_map(self.features@[i as int].1@, w, h, nw, nh, c),
            Cell::Fused(i) => shows_map(self.fused@[i as int].1@, w, h, nw, nh, c),
            Cell::Extra(i) => shows_image(self.extra@[i as int].1@, w, h, nw, nh, c),
            Cell::Swatch(i) => shows_color(self.swatches[i as int]->Some_0, nw, nh, c),
            Cell::Palette => shows_palette(self.palette@, nw, nh, c),
        }
    }

    /// The labels of cells.
    pub open spec fn labels(self, cells: Seq<Cell>) -> Seq<Seq<char>> {
        Seq::new(cells.len(), |i: int| self.label(cells[i]))
    }
}

/// `c` shows the colours as bars.
pub open spec fn shows_palette(colors: Seq<[u8; 3]>, nw: u32, nh: u32, c: Canvas) -> bool {
    &&& c.wf()
    &&& c.width == nw
    &&& c.height == nh
    &&& forall|i: int|
        #![trigger c.pixels@[i]]
        0 <= i < c.pixels@.len() ==> c.pixels@[i] == if colors.len() == 0 {
            WHITE
        } else {
            colors[swatch_at(i % (nw as int), nw as int, colors.len() as int)]
        }
}

/// A text of few letters can be drawn.
proof fn short_is_drawable(s: Seq<char>)
    requires
        fair_name(s),
    ensures
        drawable(s),
{
    encoded_length(s);
}

proof fn encoded_length(s: Seq<char>)
    ensures
        encode_utf8(s).len() <= 4 * s.len(),
    decreases s.len(),
{
    if s.len() > 0 {
        encoded_length(s.drop_first());
        assert(encode_scalar(s[0] as u32).len() <= 4);
    }
}

/// The label of a cell can be drawn.
proof fn label_is_drawable(p: Pictures, cell: Cell)
    requires
        p.wf(),
        p.has(cell),
    ensures
        drawable(p.label(cell)),
{
    reveal_strlit("Original");
    reveal_strlit("Imp Color");
    reveal_strlit("Pred Color");
    reveal_strlit("Region Color");
    reveal_strlit("Palette");
    match cell {
        Cell::Feature(i) => {
            let name = p.features@[i as int].0@;
            assert(fair_map(p.features@[i as int], p.width, p.height));
            map_label_short(name);
            feature_label_short(name);
        },
        Cell::Fused(i) => {
            let name = p.fused@[i as int].0@;
            assert(fair_map(p.fused@[i as int], p.width, p.height));
            map_label_short(name);
            fused_label_short(name);
        },
        Cell::Extra(i) => {
            let name = p.extra@[i as int].0@;
            assert(fair_extra(p.extra@[i as int], p.width, p.height));
            fused_label_short(name);
        },
        _ => {},
    }
    short_is_drawable(p.label(cell));
}

/// The label of a cell.
fn cell_label(p: &Pictures, cell: Cell) -> (label: String)
    requires
        p.has(cell),
    ensures
        label@ == p.label(cell),
{
    match cell {
        Cell::Blank => String::new(),
        Cell::Original => String::from_str("Original"),
        Cell::Feature(i) => if p.small {
            shorten_name(p.features[i].0)
        } else {
            shorten_feature_name(p.features[i].0)
        },
        Cell::Fused(i) => if p.small {
            shorten_name(p.fused[i].0)
        } else {
            fuse_display_name(p.fused[i].0)
        },
        Cell::Extra(i) => fuse_display_name(p.extra[i].0),
        Cell::Swatch(i) => if i == 0 {
            String::from_str("Imp Color")
        } else if i == 1 {
            String::from_str("Pred Color")
        } else {
            String::from_str("Region Color")
        },
        Cell::Palette => String::from_str("Palette"),
    }
}

/// The picture of a cell.
fn cell_picture(p: &Pictures, cell: Cell, nw: u32, nh: u32) -> (c: Canvas)
    requires
        p.wf(),
        p.has(cell),
        shrinkable(p.width, p.height, nw, nh),
        cell == Cell::Palette ==> p.palette@.len() <= nw,
    ensures
        p.shown(cell, nw, nh, c),
        c.wf(),
{
    proof {
        smaller_product(p.width as int, p.height as int, nw as int, nh as int);
    }
    match cell {
        Cell::Blank => make_empty_thumb(nw, nh),
        Cell::Original => make_thumb_rgb(p.original, p.width, p.height, nw, nh),
        Cell::Feature(i) => {
            assert(fair_map(p.features@[i as int], p.width, p.height));
            make_thumb_gray(p.features[i].1, p.width, p.height, nw, nh)
        },
        Cell::Fused(i) => {
            assert(fair_map(p.fused@[i as int], p.width, p.height));
            make_thumb_gray(p.fused[i].1, p.width, p.height, nw, nh)
        },
        Cell::Extra(i) => {
            assert(fair_extra(p.extra@[i as int], p.width, p.height));
            make_thumb_rgb(p.extra[i].1, p.width, p.height, nw, nh)
        },
        Cell::Swatch(i) => match p.swatches[i] {
            Some(color) => make_swatch_thumb(color, nw, nh),
            None => make_empty_thumb(nw, nh),
        },
        Cell::Palette => make_palette_thumb(p.palette, nw, nh),
    }
}

/// Every cell has its picture.
pub open spec fn pictured(
    p: Pictures,
    cells: Seq<Cell>,
    nw: u32,
    nh: u32,
    thumbs: Seq<Canvas>,
) -> bool {
    &&& thumbs.len() == cells.len()
    &&& forall|i: int|
        #![trigger thumbs[i]]
        0 <= i < thumbs.len() ==> p.shown(cells[i], nw, nh, thumbs[i])
}

/// The sheet shows the pictures of the cells with their labels.
pub open spec fn is_sheet(p: Pictures, cells: Seq<Cell>, g: Grid, stamp: Seq<char>, sheet: Canvas) -> bool {
    &&& sheet.wf()
    &&& sheet.width == g.width()
    &&& sheet.height == g.height()
    &&& exists|thumbs: Seq<Canvas>| #[trigger]
        pictured(p, cells, g.cell_w, g.cell_h, thumbs) && drawn(
            g,
            thumbs,
            p.labels(cells),
            stamp,
            sheet,
        )
}

/// Every pixel is that of the composed sheet.
pub open spec fn drawn(
    g: Grid,
    thumbs: Seq<Canvas>,
    labels: Seq<Seq<char>>,
    stamp: Seq<char>,
    sheet: Canvas,
) -> bool {
    forall|i: int|
        #![trigger sheet.pixels@[i]]
        0 <= i < sheet.pixels@.len() ==> sheet.pixels@[i] == sheet_pixel(
            g,
            thumbs,
            labels,
            stamp,
            i,
        )
}

/// Draws the pictures of the cells.
fn draw_cells(p: &Pictures, cells: &Vec<Cell>, g: &Grid, stamp: &str) -> (sheet: Canvas)
    requires
        p.wf(),
        g.fits(),
        cells@.len() <= g.rows * g.cols,
        shrinkable(p.width, p.height, g.cell_w, g.cell_h),
        forall|i: int|
            #![trigger cells@[i]]
            0 <= i < cells@.len() ==> p.has(cells@[i]) && (cells@[i] == Cell::Palette
                ==> p.palette@.len() <= g.cell_w),
        fair_name(stamp@),
    ensures
        is_sheet(*p, cells@, *g, stamp@, sheet),
{
    let mut thumbs: Vec<Canvas> = Vec::new();
    let mut labels: Vec<String> = Vec::new();
    let mut i: usize = 0;
    while i < cells.len()
        invariant
            i <= cells@.len(),
            p.wf(),
            shrinkable(p.width, p.height, g.cell_w, g.cell_h),
            forall|i: int|
                #![trigger cells@[i]]
                0 <= i < cells@.len() ==> p.has(cells@[i]) && (cells@[i] == Cell::Palette
                    ==> p.palette@.len() <= g.cell_w),
            thumbs@.len() == i,
            labels@.len() == i,
            forall|k: int|
                #![trigger thumbs@[k]]
                0 <= k < i ==> thumbs@[k].wf() && p.shown(
                    cells@[k],
                    g.cell_w,
                    g.cell_h,
                    thumbs@[k],
                ),
            forall|k: int|
                #![trigger labels@[k]]
                0 <= k < i ==> labels@[k]@ == p.label(cells@[k]) && drawable(labels@[k]@),
        decreases cells@.len() - i,
    {
        let cell = cells[i];
        assert(cell == cells@[i as int]);
        proof {
            label_is_drawable(*p, cell);
        }
        thumbs.push(cell_picture(p, cell, g.cell_w, g.cell_h));
        labels.push(cell_label(p, cell));
        i += 1;
    }
    proof {
        short_is_drawable(stamp@);
        assert(texts(labels@) =~= p.labels(cells@));
        assert(pictured(*p, cells@, g.cell_w, g.cell_h, thumbs@));
    }
    let sheet = compose_sheet(g, &thumbs, &labels, stamp);
    assert(drawn(*g, thumbs@, p.labels(cells@), stamp@, sheet));
    sheet
}

/// The smaller of two widths.
pub open spec fn narrower(a: u32, b: u32) -> u32 {
    if a <= b {
        a
    } else {
        b
    }
}

/// The height of thumbnails.
pub open spec fn thumb_height(cell_w: int, w: int, h: int) -> int {
    (2 * (cell_w * h) + w) / (2 * w)
}

/// The height of a thumbnail is the nearest whole number to the one that keeps the
/// proportions.
pub proof fn thumbs_keep_proportions(cell_w: int, w: int, h: int)
    requires
        0 <= cell_w,
        0 < w,
        0 <= h,
    ensures
        -w <= 2 * (thumb_height(cell_w, w, h) * w - cell_w * h) <= w,
{
    let x = cell_w * h;
    assert(x >= 0) by (nonlinear_arith)
        requires
            x == cell_w * h,
            cell_w >= 0,
            h >= 0,
    ;
    let q = thumb_height(cell_w, w, h);
    vstd::arithmetic::div_mod::lemma_fundamental_div_mod(2 * x + w, 2 * w);
    vstd::arithmetic::div_mod::lemma_mod_bound(2 * x + w, 2 * w);
    assert((2 * w) * q == 2 * (q * w)) by (nonlinear_arith);
}

/// Measures of a full sheet.
pub open spec fn full_grid(
    layout: ContactSheetParams,
    features: int,
    fused: int,
    w: u32,
    h: u32,
) -> Grid {
    let cell_w = narrower(layout.thumb_w, w);
    let cell_h = thumb_height(cell_w as int, w as int, h as int);
    Grid {
        cols: layout.cols,
        rows: full_rows(layout.rows as int, features, fused, layout.cols as int) as u32,
        cell_w,
        cell_h: cell_h as u32,
        pad: layout.pad,
        step_h: (cell_h + layout.label_h) as u32,
        label_gap: 4,
    }
}

/// Which colours there are.
pub open spec fn given(swatches: [Option<[u8; 3]>; 3]) -> [bool; 3] {
    [swatches[0] is Some, swatches[1] is Some, swatches[2] is Some]
}

/// The full sheet of the pictures.
pub open spec fn is_full_sheet(
    p: Pictures,
    layout: ContactSheetParams,
    stamp: Seq<char>,
    sheet: Canvas,
) -> bool {
    let features = p.features@.len() as int;
    let fused = p.fused@.len() as int;
    let g = full_grid(layout, features, fused, p.width, p.height);
    is_sheet(
        p,
        cut_to(
            full_cells(
                features,
                fused,
                p.extra@.len() as int,
                given(p.swatches),
                layout.cols as int,
            ),
            g.rows * g.cols,
        ),
        g,
        stamp,
        sheet,
    )
}

/// A row of thumbnails with its labels, and all columns, are of moderate size.
pub open spec fn moderate(layout: ContactSheetParams, h: u32) -> bool {
    &&& 1 <= layout.cols < 0x1000_0000
    &&& layout.label_h < 0x1000_0000
}

/// Draws the original, the features, the fused maps with their composites, and
/// the filtered maps with the predicted colours, in rows, with labels below.
pub fn make_contact_sheet_full(
    original: &[[u8; 3]],
    features: &[(&str, &[u8])],
    fused: &[(&str, &[u8])],
    extra_rgb: &[(&str, &[[u8; 3]])],
    impression_swatch: Option<[u8; 3]>,
    weighted_swatch: Option<[u8; 3]>,
    region_swatch: Option<[u8; 3]>,
    w: u32,
    h: u32,
    layout: &ContactSheetParams,
    timestamp: &str,
) -> (sheet: Canvas)
    requires
        frame(w, h, original@.len() as int),
        fair_maps(features@, w, h),
        fair_maps(fused@, w, h),
        fair_extras(extra_rgb@, w, h),
        features@.len() < 0x1000_0000,
        shrinkable(w, h, w, h),
        moderate(*layout, h),
        full_rows(
            layout.rows as int,
            features@.len() as int,
            fused@.len() as int,
            layout.cols as int,
        ) * layout.cols <= u32::MAX,
        full_grid(*layout, features@.len() as int, fused@.len() as int, w, h).fits(),
        fair_name(timestamp@),
    ensures
        exists|p: Pictures|
            {
                &&& p.holds(
                    original@,
                    features@,
                    fused@,
                    extra_rgb@,
                    [impression_swatch, weighted_swatch, region_swatch],
                    Seq::empty(),
                    w,
                    h,
                    false,
                )
                &&& #[trigger] is_full_sheet(p, *layout, timestamp@, sheet)
            },
{
    let swatches = [impression_swatch, weighted_swatch, region_swatch];
    let flags: [bool; 3] = [
        impression_swatch.is_some(),
        weighted_swatch.is_some(),
        region_swatch.is_some(),
    ];
    let cell_w: u32 = if layout.thumb_w <= w {
        layout.thumb_w
    } else {
        w
    };
    let cell_h = cell_height(cell_w, w, h);
    let (cells, rows) = layout_full(
        features.len(),
        fused.len(),
        extra_rgb.len(),
        flags,
        layout.cols,
        layout.rows,
    );
    let g = Grid {
        cols: layout.cols,
        rows,
        cell_w,
        cell_h,
        pad: layout.pad,
        step_h: cell_h + layout.label_h,
        label_gap: 4,
    };
    let none: &[[u8; 3]] = &[];
    let p = Pictures {
        original,
        features,
        fused,
        extra: extra_rgb,
        swatches,
        palette: none,
        width: w,
        height: h,
        small: false,
    };
    proof {
        assert(flags@ =~= given(swatches)@);
        assert(g == full_grid(*layout, features@.len() as int, fused@.len() as int, w, h));
        let all = full_cells(
            features@.len() as int,
            fused@.len() as int,
            extra_rgb@.len() as int,
            flags,
            layout.cols as int,
        );
        assert forall|i: int| #![trigger cells@[i]] 0 <= i < cells@.len() implies p.has(cells@[i])
            && cells@[i] != Cell::Palette by {
            assert(cells@[i] == if i < all.len() {
                all[i]
            } else {
                Cell::Blank
            });
            if i < all.len() {
                full_cell_has(
                    p,
                    features@.len() as int,
                    fused@.len() as int,
                    extra_rgb@.len() as int,
                    flags,
                    layout.cols as int,
                    i,
                );
            }
        }
    }
    let sheet = draw_cells(&p, &cells, &g, timestamp);
    proof {
        assert(none@ =~= Seq::empty());
        assert(p.holds(
            original@,
            features@,
            fused@,
            extra_rgb@,
            swatches,
            Seq::empty(),
            w,
            h,
            false,
        ));
        assert(is_full_sheet(p, *layout, timestamp@, sheet));
    }
    sheet
}

/// Every cell of a full sheet has its picture.
proof fn full_cell_has(
    p: Pictures,
    features: int,
    fused: int,
    extra: int,
    flags: [bool; 3],
    cols: int,
    i: int,
)
    requires
        features == p.features@.len(),
        fused == p.fused@.len(),
        extra == p.extra@.len(),
        flags[0] == p.swatches[0] is Some,
        flags[1] == p.swatches[1] is Some,
        flags[2] == p.swatches[2] is Some,
        0 <= i < full_cells(features, fused, extra, flags, cols).len(),
    ensures
        p.has(full_cells(features, fused, extra, flags, cols)[i]),
        full_cells(features, fused, extra, flags, cols)[i] != Cell::Palette,
{
}

/// The colours of a palette.
pub open spec fn palette_colors(palette: Seq<PaletteEntry>) -> Seq<[u8; 3]> {
    Seq::new(palette.len(), |i: int| hex_value(palette[i].hex@))
}

/// Measures of a small sheet.
pub open spec fn small_grid(
    cols: u32,
    thumb_w: u32,
    features: int,
    fused: int,
    palette: bool,
    w: u32,
    h: u32,
) -> Grid {
    let cell_w = narrower(thumb_w, w);
    let cell_h = thumb_height(cell_w as int, w as int, h as int);
    let count = small_cells(features, fused, palette, cols as int).len() as int;
    Grid {
        cols,
        rows: rows_for(count, cols as int) as u32,
        cell_w,
        cell_h: cell_h as u32,
        pad: 4,
        step_h: (cell_h + 20) as u32,
        label_gap: 2,
    }
}

/// The small sheet of the pictures.
pub open spec fn is_small_sheet(
    p: Pictures,
    cols: u32,
    thumb_w: u32,
    stamp: Seq<char>,
    sheet: Canvas,
) -> bool {
    let features = p.features@.len() as int;
    let fused = p.fused@.len() as int;
    let palette = p.palette@.len() > 0;
    is_sheet(
        p,
        small_cells(features, fused, palette, cols as int),
        small_grid(cols, thumb_w, features, fused, palette, p.width, p.height),
        stamp,
        sheet,
    )
}

/// On a small sheet the cells lie four pixels apart, with twenty pixels below each
/// picture for its label, which stands two pixels below; pictures are never wider
/// than the image.
pub proof fn small_sheets_are_laid_out(
    cols: u32,
    thumb_w: u32,
    features: int,
    fused: int,
    palette: bool,
    w: u32,
    h: u32,
)
    ensures
        ({
            let g = small_grid(cols, thumb_w, features, fused, palette, w, h);
            &&& g.cols == cols
            &&& g.pad == 4
            &&& g.label_gap == 2
            &&& g.cell_w <= thumb_w && g.cell_w <= w
            &&& g.cell_w == thumb_w || g.cell_w == w
            &&& g.cell_h as int == thumb_height(g.cell_w as int, w as int, h as int)
                ==> 0 <= g.cell_h + 20 <= u32::MAX ==> g.step_h == g.cell_h + 20
        }),
{
}

/// On a full sheet the gaps are those of the layout, and labels stand four pixels
/// below their pictures.
pub proof fn full_sheets_follow_their_layout(
    layout: ContactSheetParams,
    features: int,
    fused: int,
    w: u32,
    h: u32,
)
    ensures
        ({
            let g = full_grid(layout, features, fused, w, h);
            &&& g.cols == layout.cols
            &&& g.pad == layout.pad
            &&& g.label_gap == 4
            &&& g.cell_w <= layout.thumb_w && g.cell_w <= w
            &&& g.cell_w == layout.thumb_w || g.cell_w == w
            &&& g.cell_h as int == thumb_height(g.cell_w as int, w as int, h as int)
                ==> g.cell_h + layout.label_h <= u32::MAX ==> g.step_h == g.cell_h + layout.label_h
        }),
{
}

/// Draws the original, the features, the fused maps and the palette, in rows,
/// with labels below.
pub fn make_contact_sheet(
    original: &[[u8; 3]],
    features: &[(&str, &[u8])],
    fused: &[(&str, &[u8])],
    w: u32,
    h: u32,
    cols: u32,
    thumb_w: u32,
    palette: &[PaletteEntry],
    timestamp: &str,
) -> (sheet: Canvas)
    requires
        frame(w, h, original@.len() as int),
        fair_maps(features@, w, h),
        fair_maps(fused@, w, h),
        shrinkable(w, h, w, h),
        1 <= cols < 0x1000_0000,
        features@.len() < 0x1000_0000,
        fused@.len() < 0x1000_0000,
        palette@.len() <= narrower(thumb_w, w),
        forall|i: int|
            #![trigger palette@[i]]
            0 <= i < palette@.len() ==> palette@[i].hex@.len() >= 7,
        small_grid(
            cols,
            thumb_w,
            features@.len() as int,
            fused@.len() as int,
            palette@.len() > 0,
            w,
            h,
        ).fits(),
        fair_name(timestamp@),
    ensures
        exists|p: Pictures|
            {
                &&& p.holds(
                    original@,
                    features@,
                    fused@,
                    Seq::empty(),
                    [None, None, None],
                    palette_colors(palette@),
                    w,
                    h,
                    true,
                )
                &&& #[trigger] is_small_sheet(p, cols, thumb_w, timestamp@, sheet)
            },
{
    let mut colors: Vec<[u8; 3]> = Vec::new();
    let mut i: usize = 0;
    while i < palette.len()
        invariant
            i <= palette@.len(),
            forall|i: int|
                #![trigger palette@[i]]
                0 <= i < palette@.len() ==> palette@[i].hex@.len() >= 7,
            colors@.len() == i,
            forall|k: int|
                #![trigger colors@[k]]
                0 <= k < i ==> colors@[k] == hex_value(palette@[k].hex@),
        decreases palette@.len() - i,
    {
        colors.push(parse_hex(palette[i].hex.as_str()));
        i += 1;
    }
    assert(colors@ =~= palette_colors(palette@));
    let cell_w: u32 = if thumb_w <= w {
        thumb_w
    } else {
        w
    };
    let cell_h = cell_height(cell_w, w, h);
    let cells = layout_small(features.len(), fused.len(), palette.len() > 0, cols);
    proof {
        filling_up_aligns(
            1 + features@.len() + fused@.len() + if palette@.len() > 0 {
                1int
            } else {
                0
            },
            cols as int,
        );
        filling_up_aligns(cells@.len() as int, cols as int);
    }
    let count: u32 = cells.len() as u32;
    let rows: u32 = (count + cols - 1) / cols;
    let g = Grid { cols, rows, cell_w, cell_h, pad: 4, step_h: cell_h + 20, label_gap: 2 };
    let none: &[(&str, &[[u8; 3]])] = &[];
    let p = Pictures {
        original,
        features,
        fused,
        extra: none,
        swatches: [None, None, None],
        palette: colors.as_slice(),
        width: w,
        height: h,
        small: true,
    };
    let sheet = draw_cells(&p, &cells, &g, timestamp);
    proof {
        assert(none@ =~= Seq::empty());
        assert(p.holds(
            original@,
            features@,
            fused@,
            Seq::empty(),
            [None, None, None],
            palette_colors(palette@),
            w,
            h,
            true,
        ));
        assert(is_small_sheet(p, cols, thumb_w, timestamp@, sheet));
    }
    sheet
}

/// A map without levels shows as a white picture of the size that is asked for.
pub proof fn missing_maps_are_white(w: u32, h: u32, nw: u32, nh: u32, c: Canvas, i: int)
    requires
        shows_map(Seq::empty(), w, h, nw, nh, c),
        0 <= i < c.pixels@.len(),
    ensures
        c.width == nw,
        c.height == nh,
        c.pixels@[i][0] == 255 && c.pixels@[i][1] == 255 && c.pixels@[i][2] == 255,
{
}

/// A map with levels shows as a picture whose channels are its levels.
pub proof fn maps_show_their_levels(levels: Seq<u8>, w: u32, h: u32, nw: u32, nh: u32, c: Canvas)
    requires
        shows_map(levels, w, h, nw, nh, c),
        levels.len() > 0,
    ensures
        shows_image(
            Seq::new(levels.len(), |i: int| [levels[i], levels[i], levels[i]]),
            w,
            h,
            nw,
            nh,
            c,
        ),
{
    let shown = Seq::new(levels.len(), |i: int| [levels[i], levels[i], levels[i]]);
    assert(shown =~= grays(levels));
}

/// On a small sheet features and fused maps go by the names of maps, on a full
/// sheet each by its own; colours beside them have their names in order.
pub proof fn cells_have_their_labels(p: Pictures, i: usize)
    ensures
        p.small ==> p.label(Cell::Feature(i)) == map_label(p.features@[i as int].0@),
        p.small ==> p.label(Cell::Fused(i)) == map_label(p.fused@[i as int].0@),
        !p.small ==> p.label(Cell::Feature(i)) == feature_label(p.features@[i as int].0@),
        !p.small ==> p.label(Cell::Fused(i)) == fused_label(p.fused@[i as int].0@),
        p.label(Cell::Extra(i)) == fused_label(p.extra@[i as int].0@),
        p.label(Cell::Original) == "Original"@,
        p.label(Cell::Blank).len() == 0,
        p.label(Cell::Swatch(0)) == "Imp Color"@,
        p.label(Cell::Swatch(1)) == "Pred Color"@,
        p.label(Cell::Swatch(2)) == "Region Color"@,
        p.label(Cell::Palette) == "Palette"@,
{
}

/// The bars of a palette show its colours, all rows alike; a picture without
/// colours is white.
pub proof fn palettes_show_as_bars(colors: Seq<[u8; 3]>, nw: u32, nh: u32, c: Canvas, i: int)
    requires
        shows_palette(colors, nw, nh, c),
        0 <= i < c.pixels@.len(),
        nw > 0,
    ensures
        c.width == nw,
        c.height == nh,
        colors.len() == 0 ==> c.pixels@[i][0] == 255 && c.pixels@[i][1] == 255 && c.pixels@[i][2]
            == 255,
        i + nw < c.pixels@.len() ==> c.pixels@[i + nw] == c.pixels@[i],
        colors.len() > 0 ==> c.pixels@[i] == colors[swatch_at(
            i % (nw as int),
            nw as int,
            colors.len() as int,
        )],
{
    let w = nw as int;
    assert((i + w) % w == i % w) by (nonlinear_arith)
        requires
            w > 0,
    ;
    if i + nw < c.pixels@.len() {
        assert(c.pixels@[i + w] == c.pixels@[i]);
    }
}

/// A sheet is as large as its grid and shows the picture of every cell.
pub proof fn sheets_show_every_cell(
    p: Pictures,
    cells: Seq<Cell>,
    g: Grid,
    stamp: Seq<char>,
    sheet: Canvas,
    i: int,
) -> (thumbs: Seq<Canvas>)
    requires
        is_sheet(p, cells, g, stamp, sheet),
        0 <= i < cells.len(),
    ensures
        sheet.width == g.width(),
        sheet.height == g.height(),
        thumbs.len() == cells.len(),
        p.shown(cells[i], g.cell_w, g.cell_h, thumbs[i]),
        drawn(g, thumbs, p.labels(cells), stamp, sheet),
{
    let thumbs = choose|thumbs: Seq<Canvas>| #[trigger]
        pictured(p, cells, g.cell_w, g.cell_h, thumbs) && drawn(
            g,
            thumbs,
            p.labels(cells),
            stamp,
            sheet,
        );
    thumbs
}

} // verus!
