//! Contact sheets: pictures and labels in a grid.

use vstd::prelude::*;
use vstd::string::*;
use vstd::utf8::encode_utf8;
use crate::canvas::{
    draw_text_rgb, laid_over, lettered, overlay, text_inks, Canvas, WHITE,
};
use crate::dims::{missing_cells, rows_for};

verus! {

/// What a cell of a contact sheet shows.
#[derive(Clone, Copy, Debug, PartialEq, Eq, Structural)]
pub enum Cell {
    /// Nothing.
    Blank,
    /// The original image.
    Original,
    /// A feature map.
    Feature(usize),
    /// A fused map.
    Fused(usize),
    /// A composite image.
    Extra(usize),
    /// A colour.
    Swatch(usize),
    /// The palette.
    Palette,
}

/// The cells, filled up with blanks to whole rows.
pub open spec fn filled_up(cells: Seq<Cell>, cols: int) -> Seq<Cell> {
    cells + Seq::new(missing_cells(cells.len() as int, cols) as nat, |i: int| Cell::Blank)
}

/// Adds blanks until the last row is full.
pub fn pad_to_align(cells: &mut Vec<Cell>, cols: u32)
    requires
        cols >= 1,
    ensures
        final(cells)@ == filled_up(old(cells)@, cols as int),
{
    let ghost start = cells@;
    let c = cols as usize;
    let rest: usize = cells.len() % c;
    let missing: usize = if rest == 0 {
        0
    } else {
        c - rest
    };
    proof {
        let r = start.len() as int % (c as int);
        if r == 0 {
            vstd::arithmetic::div_mod::lemma_mod_self_0(c as int);
        } else {
            vstd::arithmetic::div_mod::lemma_small_mod((c - r) as nat, c as nat);
        }
        assert(missing == missing_cells(start.len() as int, c as int));
    }
    let mut k: usize = 0;
    while k < missing
        invariant
            k <= missing,
            cells@ == start + Seq::new(k as nat, |i: int| Cell::Blank),
        decreases missing - k,
    {
        let ghost before = cells@;
        cells.push(Cell::Blank);
        assert(cells@ =~= start + Seq::new((k + 1) as nat, |i: int| Cell::Blank));
        k += 1;
    }
    assert(cells@ =~= filled_up(start, cols as int));
}

/// The original and the feature maps.
pub open spec fn feature_cells(features: int) -> Seq<Cell> {
    Seq::new((1 + features) as nat, |i: int| if i == 0 {
        Cell::Original
    } else {
        Cell::Feature((i - 1) as usize)
    })
}

/// A blank and three fused maps from number `from` on.
pub open spec fn fused_cells(from: int) -> Seq<Cell> {
    seq![
        Cell::Blank,
        Cell::Fused(from as usize),
        Cell::Fused((from + 1) as usize),
        Cell::Fused((from + 2) as usize),
    ]
}

/// The composite images.
pub open spec fn extra_cells(extra: int) -> Seq<Cell> {
    Seq::new(extra as nat, |i: int| Cell::Extra(i as usize))
}

/// The colours that there are.
pub open spec fn swatch_cells(swatches: [bool; 3]) -> Seq<Cell> {
    let none: Seq<Cell> = seq![];
    let a = if swatches[0] {
        none.push(Cell::Swatch(0))
    } else {
        none
    };
    let b = if swatches[1] {
        a.push(Cell::Swatch(1))
    } else {
        a
    };
    if swatches[2] {
        b.push(Cell::Swatch(2))
    } else {
        b
    }
}

/// The cells of a full sheet before it is filled up: the original and all
/// features; with at least three fused maps a row of these with the composites;
/// with at least six a row of the next three with the colours.
pub open spec fn full_cells(
    features: int,
    fused: int,
    extra: int,
    swatches: [bool; 3],
    cols: int,
) -> Seq<Cell> {
    let a = filled_up(feature_cells(features), cols);
    let b = if fused >= 3 {
        filled_up(a + fused_cells(0) + extra_cells(extra), cols)
    } else {
        a
    };
    if fused >= 6 {
        filled_up(b + fused_cells(3) + swatch_cells(swatches), cols)
    } else {
        b
    }
}

/// Number of rows of a full sheet: those of the features, one more for fused
/// maps and one for filtered ones, and at least as many as asked for.
pub open spec fn full_rows(layout_rows: int, features: int, fused: int, cols: int) -> int {
    let f = rows_for(1 + features, cols);
    let needed = if fused >= 6 {
        f + 2
    } else if fused >= 3 {
        f + 1
    } else {
        f
    };
    if layout_rows >= needed {
        layout_rows
    } else {
        needed
    }
}

/// The cells cut or filled up with blanks to `count`.
pub open spec fn cut_to(cells: Seq<Cell>, count: int) -> Seq<Cell> {
    Seq::new(count as nat, |i: int| if i < cells.len() {
        cells[i]
    } else {
        Cell::Blank
    })
}

fn push_fused(cells: &mut Vec<Cell>, from: usize)
    requires
        from <= 3,
    ensures
        final(cells)@ == old(cells)@ + fused_cells(from as int),
{
    let ghost start = cells@;
    cells.push(Cell::Blank);
    cells.push(Cell::Fused(from));
    cells.push(Cell::Fused(from + 1));
    cells.push(Cell::Fused(from + 2));
    assert(cells@ =~= start + fused_cells(from as int));
}

/// Cutting a list of cells to a number keeps the first ones and fills up with
/// blank ones.
pub proof fn cutting_keeps_first_cells(cells: Seq<Cell>, count: int, i: int)
    requires
        0 <= i < count,
    ensures
        cut_to(cells, count).len() == count,
        i < cells.len() ==> cut_to(cells, count)[i] == cells[i],
        i >= cells.len() ==> cut_to(cells, count)[i] == Cell::Blank,
{
}

/// Lays out a full sheet: its cells row by row, and the number of rows.
pub fn layout_full(
    features: usize,
    fused: usize,
    extra: usize,
    swatches: [bool; 3],
    cols: u32,
    layout_rows: u32,
) -> (r: (Vec<Cell>, u32))
    requires
        cols >= 1,
        features < 0x1000_0000,
        cols < 0x1000_0000,
        full_rows(layout_rows as int, features as int, fused as int, cols as int) * cols
            <= u32::MAX,
    ensures
        r.1 == full_rows(layout_rows as int, features as int, fused as int, cols as int),
        r.0@ == cut_to(
            full_cells(features as int, fused as int, extra as int, swatches, cols as int),
            r.1 * cols,
        ),
{
    let mut cells: Vec<Cell> = Vec::new();
    cells.push(Cell::Original);
    let mut i: usize = 0;
    while i < features
        invariant
            i <= features,
            cells@.len() == 1 + i,
            cells@[0] == Cell::Original,
            forall|k: int|
                #![trigger cells@[k]]
                1 <= k < cells@.len() ==> cells@[k] == Cell::Feature((k - 1) as usize),
        decreases features - i,
    {
        cells.push(Cell::Feature(i));
        i += 1;
    }
    assert(cells@ =~= feature_cells(features as int));
    pad_to_align(&mut cells, cols);
    if fused >= 3 {
        let ghost a = cells@;
        push_fused(&mut cells, 0);
        let ghost b = cells@;
        let mut i: usize = 0;
        while i < extra
            invariant
                i <= extra,
                cells@ == b + extra_cells(i as int),
            decreases extra - i,
        {
            let ghost before = cells@;
            cells.push(Cell::Extra(i));
            assert(cells@ =~= b + extra_cells(i + 1));
            i += 1;
        }
        pad_to_align(&mut cells, cols);
    }
    if fused >= 6 {
        push_fused(&mut cells, 3);
        let ghost b = cells@;
        if swatches[0] {
            cells.push(Cell::Swatch(0));
        }
        if swatches[1] {
            cells.push(Cell::Swatch(1));
        }
        if swatches[2] {
            cells.push(Cell::Swatch(2));
        }
        assert(cells@ =~= b + swatch_cells(swatches));
        pad_to_align(&mut cells, cols);
    }
    let feat_rows: u32 = (1 + features as u32 + cols - 1) / cols;
    let needed: u32 = if fused >= 6 {
        feat_rows + 2
    } else if fused >= 3 {
        feat_rows + 1
    } else {
        feat_rows
    };
    let rows: u32 = if layout_rows >= needed {
        layout_rows
    } else {
        needed
    };
    let count = (rows as u64 * cols as u64) as usize;
    let ghost all = cells@;
    let mut out: Vec<Cell> = Vec::new();
    let mut k: usize = 0;
    while k < count
        invariant
            k <= count,
            all == cells@,
            out@.len() == k,
            forall|i: int| #![trigger out@[i]] 0 <= i < k ==> out@[i] == cut_to(all, count as int)[i],
        decreases count - k,
    {
        if k < cells.len() {
            out.push(cells[k]);
        } else {
            out.push(Cell::Blank);
        }
        k += 1;
    }
    assert(out@ =~= cut_to(all, count as int));
    (out, rows)
}

/// The cells of a small sheet: the original, the features, the fused maps and
/// the palette, if there is one, filled up to whole rows.
pub open spec fn small_cells(features: int, fused: int, palette: bool, cols: int) -> Seq<Cell> {
    let a = feature_cells(features) + Seq::new(fused as nat, |i: int| Cell::Fused(i as usize));
    filled_up(
        if palette {
            a.push(Cell::Palette)
        } else {
            a
        },
        cols,
    )
}

/// Lays out a small sheet.
pub fn layout_small(features: usize, fused: usize, palette: bool, cols: u32) -> (cells: Vec<Cell>)
    requires
        cols >= 1,
    ensures
        cells@ == small_cells(features as int, fused as int, palette, cols as int),
{
    let mut cells: Vec<Cell> = Vec::new();
    cells.push(Cell::Original);
    let mut i: usize = 0;
    while i < features
        invariant
            i <= features,
            cells@.len() == 1 + i,
            cells@[0] == Cell::Original,
            forall|k: int|
                #![trigger cells@[k]]
                1 <= k < cells@.len() ==> cells@[k] == Cell::Feature((k - 1) as usize),
        decreases features - i,
    {
        cells.push(Cell::Feature(i));
        i += 1;
    }
    assert(cells@ =~= feature_cells(features as int));
    let ghost b = cells@;
    let mut i: usize = 0;
    while i < fused
        invariant
            i <= fused,
            cells@ == b + Seq::new(i as nat, |i: int| Cell::Fused(i as usize)),
        decreases fused - i,
    {
        cells.push(Cell::Fused(i));
        assert(cells@ =~= b + Seq::new((i + 1) as nat, |i: int| Cell::Fused(i as usize)));
        i += 1;
    }
    if palette {
        cells.push(Cell::Palette);
    }
    pad_to_align(&mut cells, cols);
    cells
}

/// Filling up keeps the cells, adds blank ones, and makes whole rows of them.
pub proof fn filling_up_keeps_cells(cells: Seq<Cell>, cols: int, i: int)
    requires
        1 <= cols,
        0 <= i,
    ensures
        filled_up(cells, cols).len() % (cols as nat) == 0,
        cells.len() <= filled_up(cells, cols).len() < cells.len() + cols,
        i < cells.len() ==> filled_up(cells, cols)[i] == cells[i],
        cells.len() <= i < filled_up(cells, cols).len() ==> filled_up(cells, cols)[i]
            == Cell::Blank,
{
    crate::dims::filling_up_aligns(cells.len() as int, cols);
}

/// A full sheet shows the original and the features first; from the next whole row
/// on a blank, the first three fused maps and the further pictures; and from the
/// next whole row on a blank, the other fused maps and the colours.
pub proof fn full_sheet_has_three_parts(
    features: int,
    fused: int,
    extra: int,
    swatches: [bool; 3],
    cols: int,
    i: int,
)
    requires
        1 <= cols,
        0 <= features < usize::MAX,
        0 <= extra <= usize::MAX,
        0 <= i,
    ensures
        ({
            let cells = full_cells(features, fused, extra, swatches, cols);
            let second = rows_for(1 + features, cols) * cols;
            let third = rows_for(second + 4 + extra, cols) * cols;
            &&& cells.len() as int % cols == 0
            &&& cells[0] == Cell::Original
            &&& 1 <= i <= features ==> cells[i] == Cell::Feature((i - 1) as usize)
            &&& features < i < second ==> cells[i] == Cell::Blank
            &&& fused < 3 ==> cells.len() == second
            &&& fused >= 3 ==> {
                &&& cells[second] == Cell::Blank
                &&& cells[second + 1] == Cell::Fused(0)
                &&& cells[second + 2] == Cell::Fused(1)
                &&& cells[second + 3] == Cell::Fused(2)
                &&& i < extra ==> cells[second + 4 + i] == Cell::Extra(i as usize)
            }
            &&& fused >= 6 ==> {
                &&& cells[third] == Cell::Blank
                &&& cells[third + 1] == Cell::Fused(3)
                &&& cells[third + 2] == Cell::Fused(4)
                &&& cells[third + 3] == Cell::Fused(5)
                &&& swatches[0] ==> cells[third + 4] == Cell::Swatch(0)
                &&& swatches[0] && swatches[1] ==> cells[third + 5] == Cell::Swatch(1)
                &&& swatches[0] && swatches[1] && swatches[2] ==> cells[third + 6] == Cell::Swatch(
                    2,
                )
                &&& !swatches[0] && swatches[1] ==> cells[third + 4] == Cell::Swatch(1)
                &&& !swatches[0] && !swatches[1] && swatches[2] ==> cells[third + 4]
                    == Cell::Swatch(2)
            }
        }),
{
    let f = feature_cells(features);
    let a = filled_up(f, cols);
    crate::dims::filling_up_aligns(1 + features, cols);
    let second = rows_for(1 + features, cols) * cols;
    assert(a.len() == second);
    let before = a + fused_cells(0) + extra_cells(extra);
    let b = filled_up(before, cols);
    crate::dims::filling_up_aligns(second + 4 + extra, cols);
    let third = rows_for(second + 4 + extra, cols) * cols;
    assert(before.len() == second + 4 + extra);
    assert(b.len() == third);
    let last = b + fused_cells(3) + swatch_cells(swatches);
    crate::dims::filling_up_aligns(last.len() as int, cols);
    vstd::arithmetic::div_mod::lemma_mod_multiples_basic(rows_for(1 + features, cols), cols);
}

/// A small sheet shows the original, the features, the fused maps and the palette,
/// in this order.
pub proof fn small_sheet_goes_in_order(
    features: int,
    fused: int,
    palette: bool,
    cols: int,
    i: int,
)
    requires
        1 <= cols,
        0 <= features < usize::MAX,
        0 <= fused <= usize::MAX,
        0 <= i,
    ensures
        ({
            let cells = small_cells(features, fused, palette, cols);
            &&& cells.len() as int % cols == 0
            &&& cells[0] == Cell::Original
            &&& 1 <= i <= features ==> cells[i] == Cell::Feature((i - 1) as usize)
            &&& i < fused ==> cells[1 + features + i] == Cell::Fused(i as usize)
            &&& palette ==> cells[1 + features + fused] == Cell::Palette
            &&& cells.len() < 1 + features + fused + cols + 1
        }),
{
    let a = feature_cells(features) + Seq::new(fused as nat, |i: int| Cell::Fused(i as usize));
    let b = if palette {
        a.push(Cell::Palette)
    } else {
        a
    };
    crate::dims::filling_up_aligns(b.len() as int, cols);
}

/// A full sheet has at least as many rows as its layout asks for, and enough for
/// the features and one more for each three fused maps, up to two.
pub proof fn full_sheet_has_rows(layout_rows: int, features: int, fused: int, cols: int)
    requires
        1 <= cols,
        0 <= features,
    ensures
        full_rows(layout_rows, features, fused, cols) >= layout_rows,
        full_rows(layout_rows, features, fused, cols) * cols >= 1 + features,
        fused >= 3 ==> (full_rows(layout_rows, features, fused, cols) - 1) * cols >= 1 + features,
        fused >= 6 ==> (full_rows(layout_rows, features, fused, cols) - 2) * cols >= 1 + features,
        full_rows(layout_rows, features, fused, cols) == layout_rows || (full_rows(
            layout_rows,
            features,
            fused,
            cols,
        ) - 3) * cols < 1 + features,
{
    crate::dims::filling_up_aligns(1 + features, cols);
    let f = rows_for(1 + features, cols);
    let r = full_rows(layout_rows, features, fused, cols);
    assert(f * cols >= 1 + features);
    assert((f - 1) * cols < 1 + features) by (nonlinear_arith)
        requires
            f * cols < 1 + features + cols,
    ;
    if r >= f {
        assert(r * cols >= f * cols) by (nonlinear_arith)
            requires
                r >= f,
                cols >= 1,
        ;
    }
    if r - 1 >= f {
        assert((r - 1) * cols >= f * cols) by (nonlinear_arith)
            requires
                r - 1 >= f,
                cols >= 1,
        ;
    }
    if r - 2 >= f {
        assert((r - 2) * cols >= f * cols) by (nonlinear_arith)
            requires
                r - 2 >= f,
                cols >= 1,
        ;
    }
    if r - 3 <= f - 1 {
        assert((r - 3) * cols <= (f - 1) * cols) by (nonlinear_arith)
            requires
                r - 3 <= f - 1,
                cols >= 1,
        ;
    }
}

/// The height of a cell that keeps an image's proportions: `cell_w * h / w` to
/// the nearest integer, halves upward.
pub fn cell_height(cell_w: u32, w: u32, h: u32) -> (r: u32)
    requires
        0 < w,
        cell_w <= w,
    ensures
        r as int == (2 * (cell_w * h) + w) / (2 * w),
        r <= h,
{
    proof {
        assert(0 <= cell_w * h <= w * h) by (nonlinear_arith)
            requires
                0 <= cell_w <= w,
                0 <= h,
        ;
        assert(w * h <= 0xffff_ffff * 0xffff_ffff) by (nonlinear_arith)
            requires
                0 <= w <= 0xffff_ffff,
                0 <= h <= 0xffff_ffff,
        ;
        let x = 2 * (cell_w * h) + w;
        assert(0 <= x / (2 * w as int) <= h) by (nonlinear_arith)
            requires
                0 <= x <= 2 * (w * h) + w,
                w > 0,
        ;
    }
    ((2 * (cell_w as u128 * h as u128) + w as u128) / (2 * w as u128)) as u32
}

/// Measures of a sheet.
#[derive(Clone, Copy, Debug)]
pub struct Grid {
    pub cols: u32,
    pub rows: u32,
    pub cell_w: u32,
    pub cell_h: u32,
    pub pad: u32,
    /// Height of a row, without the space between rows.
    pub step_h: u32,
    /// Space between a picture and its label.
    pub label_gap: u32,
}

impl Grid {
    /// Width of the sheet.
    pub open spec fn width(self) -> int {
        self.cols * (self.cell_w + self.pad) + self.pad
    }

    /// Height of the sheet.
    pub open spec fn height(self) -> int {
        self.rows * (self.step_h + self.pad) + self.pad
    }

    /// Left edge of a cell.
    pub open spec fn left(self, idx: int) -> int {
        self.pad + (idx % (self.cols as int)) * (self.cell_w + self.pad)
    }

    /// Upper edge of a cell.
    pub open spec fn top(self, idx: int) -> int {
        self.pad + (idx / (self.cols as int)) * (self.step_h + self.pad)
    }

    /// The sheet can be held, and a picture fits into a row.
    pub open spec fn fits(self) -> bool {
        &&& self.cols >= 1
        &&& self.rows >= 1
        &&& self.cell_h <= self.step_h
        &&& self.label_gap <= 16
        &&& self.width() <= 0x1fff_ffff
        &&& self.height() <= 0x1fff_ffff
        &&& self.width() * self.height() <= u32::MAX
    }

    /// Left edge of a label of `len` letters: centred under the picture, but not
    /// left of the sheet.
    pub open spec fn label_left(self, idx: int, len: int) -> int {
        let spare = self.cell_w - 8 * len;
        let x = self.left(idx) + if spare >= 0 {
            spare / 2
        } else {
            -((-spare) / 2)
        };
        if x >= 0 {
            x
        } else {
            0
        }
    }

    /// Upper edge of the labels of a cell's row.
    pub open spec fn label_top(self, idx: int) -> int {
        self.top(idx) + self.cell_h + self.label_gap
    }

    /// Left edge of the timestamp: at the right of the sheet.
    pub open spec fn stamp_left(self, len: int) -> int {
        let x = self.width() - 8 * len - 4;
        if x >= 0 {
            x
        } else {
            0
        }
    }

    /// Upper edge of the timestamp: level with the last row's labels.
    pub open spec fn stamp_top(self) -> int {
        self.pad + (self.rows - 1) * (self.step_h + self.pad) + self.cell_h + self.label_gap
    }
}

/// Every cell lies inside the sheet with its label's row, and no two cells
/// overlap.
pub proof fn cells_are_apart(g: Grid, a: int, b: int)
    requires
        g.fits(),
        0 <= a < g.rows * g.cols,
        0 <= b < g.rows * g.cols,
    ensures
        g.pad <= g.left(a),
        g.left(a) + g.cell_w + g.pad <= g.width(),
        g.pad <= g.top(a),
        g.top(a) + g.step_h + g.pad <= g.height(),
        a != b ==> g.left(a) + g.cell_w + g.pad <= g.left(b) || g.left(b) + g.cell_w + g.pad
            <= g.left(a) || g.top(a) + g.step_h + g.pad <= g.top(b) || g.top(b) + g.step_h + g.pad
            <= g.top(a),
{
    cell_inside(g, a);
    cell_inside(g, b);
    let cols = g.cols as int;
    let (ca, ra) = (a % cols, a / cols);
    let (cb, rb) = (b % cols, b / cols);
    let w = g.cell_w + g.pad;
    let h = g.step_h + g.pad;
    if a != b {
        if ca < cb {
            assert(ca * w + w <= cb * w) by (nonlinear_arith)
                requires
                    ca + 1 <= cb,
                    w >= 0,
            ;
        } else if cb < ca {
            assert(cb * w + w <= ca * w) by (nonlinear_arith)
                requires
                    cb + 1 <= ca,
                    w >= 0,
            ;
        } else if ra < rb {
            assert(ra * h + h <= rb * h) by (nonlinear_arith)
                requires
                    ra + 1 <= rb,
                    h >= 0,
            ;
        } else if rb < ra {
            assert(rb * h + h <= ra * h) by (nonlinear_arith)
                requires
                    rb + 1 <= ra,
                    h >= 0,
            ;
        } else {
            assert(a == ra * cols + ca && b == rb * cols + cb);
        }
    }
}

proof fn cell_inside(g: Grid, a: int)
    requires
        g.fits(),
        0 <= a < g.rows * g.cols,
    ensures
        ({
            let c = a % (g.cols as int);
            let r = a / (g.cols as int);
            &&& 0 <= c < g.cols
            &&& 0 <= r < g.rows
            &&& a == r * g.cols + c
            &&& 0 <= c * (g.cell_w + g.pad)
            &&& c * (g.cell_w + g.pad) + (g.cell_w + g.pad) <= g.cols * (g.cell_w + g.pad)
            &&& 0 <= r * (g.step_h + g.pad)
            &&& r * (g.step_h + g.pad) + (g.step_h + g.pad) <= g.rows * (g.step_h + g.pad)
        }),
{
    let cols = g.cols as int;
    let rows = g.rows as int;
    let c = a % cols;
    let r = a / cols;
    let w = g.cell_w + g.pad;
    let h = g.step_h + g.pad;
    assert(a == r * cols + c && 0 <= c < cols) by (nonlinear_arith)
        requires
            cols >= 1,
            c == a % cols,
            r == a / cols,
    ;
    assert(0 <= r < rows) by (nonlinear_arith)
        requires
            0 <= a < rows * cols,
            a == r * cols + c,
            0 <= c < cols,
    ;
    assert(0 <= c * w && c * w + w <= cols * w) by (nonlinear_arith)
        requires
            0 <= c < cols,
            w >= 0,
    ;
    assert(0 <= r * h && r * h + h <= rows * h) by (nonlinear_arith)
        requires
            0 <= r < rows,
            h >= 0,
    ;
}

/// Colour of labels.
pub const LABEL_COLOR: [u8; 3] = [40, 40, 40];

/// Colour of the timestamp.
pub const STAMP_COLOR: [u8; 3] = [120, 120, 120];

/// Pixel `i` of a sheet after its first `k` cells have been drawn.
pub open spec fn cell_pixel(
    g: Grid,
    thumbs: Seq<Canvas>,
    labels: Seq<Seq<char>>,
    k: int,
    i: int,
) -> [u8; 3]
    decreases k,
{
    if k <= 0 {
        WHITE
    } else {
        let idx = k - 1;
        let x = i % g.width();
        let y = i / g.width();
        let bytes = encode_utf8(labels[idx]);
        let t = thumbs[idx];
        if text_inks(
            bytes,
            bytes.len() as int,
            g.label_left(idx, bytes.len() as int),
            g.label_top(idx),
            x,
            y,
        ) {
            LABEL_COLOR
        } else if t.holds(x - g.left(idx), y - g.top(idx)) {
            t.at(x - g.left(idx), y - g.top(idx))
        } else {
            cell_pixel(g, thumbs, labels, idx, i)
        }
    }
}

/// Pixel `i` of the finished sheet.
pub open spec fn sheet_pixel(
    g: Grid,
    thumbs: Seq<Canvas>,
    labels: Seq<Seq<char>>,
    stamp: Seq<char>,
    i: int,
) -> [u8; 3] {
    let bytes = encode_utf8(stamp);
    if text_inks(
        bytes,
        bytes.len() as int,
        g.stamp_left(bytes.len() as int),
        g.stamp_top(),
        i % g.width(),
        i / g.width(),
    ) {
        STAMP_COLOR
    } else {
        cell_pixel(g, thumbs, labels, thumbs.len() as int, i)
    }
}

/// The texts of labels.
pub open spec fn texts(labels: Seq<String>) -> Seq<Seq<char>> {
    Seq::new(labels.len(), |i: int| labels[i]@)
}

/// A text is short enough to be drawn.
pub open spec fn drawable(s: Seq<char>) -> bool {
    encode_utf8(s).len() <= 0x100_0000
}

/// A label that fits stands below its picture, as far from its left side as from
/// its right side, but for one pixel; the timestamp ends four pixels before the
/// right edge, level with the labels of the last row.
pub proof fn labels_are_centred(g: Grid, idx: int, len: int)
    requires
        g.fits(),
        0 <= idx < g.rows * g.cols,
        0 <= len,
    ensures
        8 * len <= g.cell_w ==> ({
            let before = g.label_left(idx, len) - g.left(idx);
            let after = g.left(idx) + g.cell_w - (g.label_left(idx, len) + 8 * len);
            0 <= before <= after <= before + 1
        }),
        g.label_top(idx) == g.top(idx) + g.cell_h + g.label_gap,
        8 * len + 4 <= g.width() ==> g.stamp_left(len) + 8 * len + 4 == g.width(),
        idx / (g.cols as int) == g.rows - 1 ==> g.stamp_top() == g.label_top(idx),
{
    cells_are_apart(g, idx, idx);
}

/// Without any text a sheet shows every picture in its cell, pixel by pixel, row
/// by row from the left.
pub proof fn pictures_show_in_their_cells(
    g: Grid,
    thumbs: Seq<Canvas>,
    labels: Seq<Seq<char>>,
    stamp: Seq<char>,
    idx: int,
    x: int,
    y: int,
)
    requires
        g.fits(),
        thumbs.len() <= g.rows * g.cols,
        labels.len() == thumbs.len(),
        forall|k: int|
            #![trigger thumbs[k]]
            0 <= k < thumbs.len() ==> thumbs[k].width <= g.cell_w && thumbs[k].height <= g.cell_h,
        forall|k: int| #![trigger labels[k]] 0 <= k < labels.len() ==> labels[k] == Seq::<char>::empty(),
        stamp == Seq::<char>::empty(),
        0 <= idx < thumbs.len(),
        0 <= x < thumbs[idx].width,
        0 <= y < thumbs[idx].height,
    ensures
        ({
            let col = idx % (g.cols as int);
            let row = idx / (g.cols as int);
            let px = g.pad + col * (g.cell_w + g.pad) + x;
            let py = g.pad + row * (g.step_h + g.pad) + y;
            sheet_pixel(g, thumbs, labels, stamp, py * g.width() + px)
                == thumbs[idx].pixels@[y * thumbs[idx].width + x]
        }),
{
    let px = g.left(idx) + x;
    let py = g.top(idx) + y;
    assert(thumbs[idx].width <= g.cell_w && thumbs[idx].height <= g.cell_h);
    cells_are_apart(g, idx, idx);
    crate::region::pixel_at(g.width(), px, py);
    assert(encode_utf8(stamp).len() == 0) by {
        reveal_with_fuel(encode_utf8, 2);
    }
    picture_on_top(g, thumbs, labels, idx, x, y, thumbs.len() as int);
}

proof fn picture_on_top(
    g: Grid,
    thumbs: Seq<Canvas>,
    labels: Seq<Seq<char>>,
    idx: int,
    x: int,
    y: int,
    k: int,
)
    requires
        g.fits(),
        thumbs.len() <= g.rows * g.cols,
        labels.len() == thumbs.len(),
        forall|k: int|
            #![trigger thumbs[k]]
            0 <= k < thumbs.len() ==> thumbs[k].width <= g.cell_w && thumbs[k].height <= g.cell_h,
        forall|k: int| #![trigger labels[k]] 0 <= k < labels.len() ==> labels[k] == Seq::<char>::empty(),
        0 <= idx < k <= thumbs.len(),
        0 <= x < thumbs[idx].width,
        0 <= y < thumbs[idx].height,
    ensures
        cell_pixel(g, thumbs, labels, k, (g.top(idx) + y) * g.width() + (g.left(idx) + x))
            == thumbs[idx].pixels@[y * thumbs[idx].width + x],
    decreases k,
{
    let px = g.left(idx) + x;
    let py = g.top(idx) + y;
    assert(thumbs[idx].width <= g.cell_w && thumbs[idx].height <= g.cell_h);
    assert(thumbs[k - 1].width <= g.cell_w && thumbs[k - 1].height <= g.cell_h);
    cells_are_apart(g, idx, k - 1);
    crate::region::pixel_at(g.width(), px, py);
    assert(labels[k - 1] == Seq::<char>::empty());
    assert(encode_utf8(labels[k - 1]).len() == 0) by {
        reveal_with_fuel(encode_utf8, 2);
    }
    if idx < k - 1 {
        picture_on_top(g, thumbs, labels, idx, x, y, k - 1);
    }
}

/// Labels are dark grey and the timestamp is lighter, and both cover the pictures.
pub proof fn texts_cover_pictures(
    g: Grid,
    thumbs: Seq<Canvas>,
    labels: Seq<Seq<char>>,
    stamp: Seq<char>,
    i: int,
)
    requires
        thumbs.len() > 0,
        labels.len() == thumbs.len(),
    ensures
        text_inks(
            encode_utf8(stamp),
            encode_utf8(stamp).len() as int,
            g.stamp_left(encode_utf8(stamp).len() as int),
            g.stamp_top(),
            i % g.width(),
            i / g.width(),
        ) ==> sheet_pixel(g, thumbs, labels, stamp, i) == [120u8, 120u8, 120u8],
        ({
            let last = thumbs.len() - 1;
            let bytes = encode_utf8(labels[last]);
            text_inks(
                bytes,
                bytes.len() as int,
                g.label_left(last, bytes.len() as int),
                g.label_top(last),
                i % g.width(),
                i / g.width(),
            ) ==> cell_pixel(g, thumbs, labels, thumbs.len() as int, i) == [40u8, 40u8, 40u8]
        }),
{
}

/// What is left of a sheet beside its pictures and texts is white.
pub proof fn sheets_are_white_beside_pictures(
    g: Grid,
    thumbs: Seq<Canvas>,
    labels: Seq<Seq<char>>,
    k: int,
    i: int,
)
    requires
        0 <= k <= thumbs.len(),
        labels.len() == thumbs.len(),
        forall|m: int|
            #![trigger thumbs[m]]
            0 <= m < k ==> !thumbs[m].holds(i % g.width() - g.left(m), i / g.width() - g.top(m)),
        forall|m: int|
            #![trigger labels[m]]
            0 <= m < k ==> !text_inks(
                encode_utf8(labels[m]),
                encode_utf8(labels[m]).len() as int,
                g.label_left(m, encode_utf8(labels[m]).len() as int),
                g.label_top(m),
                i % g.width(),
                i / g.width(),
            ),
    ensures
        cell_pixel(g, thumbs, labels, k, i) == [255u8, 255u8, 255u8],
    decreases k,
{
    if k > 0 {
        sheets_are_white_beside_pictures(g, thumbs, labels, k - 1, i);
        assert(thumbs[k - 1] == thumbs[k - 1]);
        assert(labels[k - 1] == labels[k - 1]);
    }
}

/// Draws a sheet: every picture with its label, and the timestamp.
pub fn compose_sheet(g: &Grid, thumbs: &Vec<Canvas>, labels: &Vec<String>, stamp: &str) -> (sheet:
    Canvas)
    requires
        g.fits(),
        thumbs@.len() <= g.rows * g.cols,
        labels@.len() == thumbs@.len(),
        forall|k: int| #![trigger thumbs@[k]] 0 <= k < thumbs@.len() ==> thumbs@[k].wf(),
        forall|k: int| #![trigger labels@[k]] 0 <= k < labels@.len() ==> drawable(labels@[k]@),
        drawable(stamp@),
    ensures
        sheet.wf(),
        sheet.width == g.width(),
        sheet.height == g.height(),
        forall|i: int|
            #![trigger sheet.pixels@[i]]
            0 <= i < sheet.pixels@.len() ==> sheet.pixels@[i] == sheet_pixel(
                *g,
                thumbs@,
                texts(labels@),
                stamp@,
                i,
            ),
{
    proof {
        assert(0 <= g.cols * (g.cell_w + g.pad)) by (nonlinear_arith);
        assert(0 <= g.rows * (g.step_h + g.pad)) by (nonlinear_arith);
    }
    let cell_step: u64 = g.cell_w as u64 + g.pad as u64;
    let row_step: u64 = g.step_h as u64 + g.pad as u64;
    proof {
        assert(cell_step <= g.cols * cell_step) by (nonlinear_arith)
            requires
                g.cols >= 1,
                cell_step >= 0,
        ;
        assert(row_step <= g.rows * row_step) by (nonlinear_arith)
            requires
                g.rows >= 1,
                row_step >= 0,
        ;
    }
    let width = (g.cols as u64 * cell_step + g.pad as u64) as u32;
    let height = (g.rows as u64 * row_step + g.pad as u64) as u32;
    let mut sheet = Canvas::filled(width, height, WHITE);
    let mut idx: usize = 0;
    while idx < thumbs.len()
        invariant
            idx <= thumbs@.len(),
            g.fits(),
            thumbs@.len() <= g.rows * g.cols,
            labels@.len() == thumbs@.len(),
            forall|k: int| #![trigger thumbs@[k]] 0 <= k < thumbs@.len() ==> thumbs@[k].wf(),
            forall|k: int| #![trigger labels@[k]] 0 <= k < labels@.len() ==> drawable(labels@[k]@),
            cell_step == g.cell_w + g.pad,
            row_step == g.step_h + g.pad,
            sheet.wf(),
            sheet.width == g.width(),
            sheet.height == g.height(),
            forall|i: int|
                #![trigger sheet.pixels@[i]]
                0 <= i < sheet.pixels@.len() ==> sheet.pixels@[i] == cell_pixel(
                    *g,
                    thumbs@,
                    texts(labels@),
                    idx as int,
                    i,
                ),
        decreases thumbs@.len() - idx,
    {
        proof {
            cell_inside(*g, idx as int);
        }
        let col = idx % (g.cols as usize);
        let row = idx / (g.cols as usize);
        let ox = (g.pad as u64 + col as u64 * cell_step) as u32;
        let oy = (g.pad as u64 + row as u64 * row_step) as u32;
        let ghost before = sheet;
        overlay(&mut sheet, &thumbs[idx], ox, oy);
        let ghost middle = sheet;
        let text: &str = labels[idx].as_str();
        let len = text.len();
        proof {
            assert(drawable(labels@[idx as int]@));
            assert(texts(labels@)[idx as int] == labels@[idx as int]@);
        }
        let text_w: i64 = 8 * len as i64;
        let spare: i64 = g.cell_w as i64 - text_w;
        let shift: i64 = if spare >= 0 {
            spare / 2
        } else {
            -((-spare) / 2)
        };
        let lx: i64 = ox as i64 + shift;
        let lx: i32 = if lx >= 0 {
            lx as i32
        } else {
            0
        };
        let ly: i32 = (oy as i64 + g.cell_h as i64 + g.label_gap as i64) as i32;
        draw_text_rgb(&mut sheet, text, lx, ly, LABEL_COLOR);
        proof {
            let bytes = encode_utf8(labels@[idx as int]@);
            assert(text.spec_bytes() == bytes);
            assert(lx == g.label_left(idx as int, bytes.len() as int));
            assert(ly == g.label_top(idx as int));
            assert forall|i: int|
                #![trigger sheet.pixels@[i]]
                0 <= i < sheet.pixels@.len() implies sheet.pixels@[i] == cell_pixel(
                *g,
                thumbs@,
                texts(labels@),
                idx + 1,
                i,
            ) by {
                assert(before.pixels@[i] == cell_pixel(
                    *g,
                    thumbs@,
                    texts(labels@),
                    idx as int,
                    i,
                ));
                assert(middle.pixels@[i] == laid_over(
                    before,
                    thumbs@[idx as int],
                    ox as int,
                    oy as int,
                    i,
                ));
                assert(sheet.pixels@[i] == lettered(
                    middle,
                    bytes,
                    bytes.len() as int,
                    lx as int,
                    ly as int,
                    LABEL_COLOR,
                    i,
                ));
            }
        }
        idx += 1;
    }
    let stamp_w: i64 = 8 * stamp.len() as i64;
    let sx: i64 = width as i64 - stamp_w - 4;
    let sx: i32 = if sx >= 0 {
        sx as i32
    } else {
        0
    };
    proof {
        let r = g.rows - 1;
        let h = g.step_h + g.pad;
        assert(r * h + h == g.rows * h) by (nonlinear_arith)
            requires
                r == g.rows - 1,
        ;
        assert(0 <= r * h) by (nonlinear_arith)
            requires
                0 <= r,
                0 <= h,
        ;
    }
    let last_top: u64 = g.pad as u64 + (g.rows - 1) as u64 * row_step;
    let sy: i32 = (last_top as i64 + g.cell_h as i64 + g.label_gap as i64) as i32;
    let ghost before = sheet;
    draw_text_rgb(&mut sheet, stamp, sx, sy, STAMP_COLOR);
    proof {
        let bytes = encode_utf8(stamp@);
        assert(stamp.spec_bytes() == bytes);
        assert forall|i: int|
            #![trigger sheet.pixels@[i]]
            0 <= i < sheet.pixels@.len() implies sheet.pixels@[i] == sheet_pixel(
            *g,
            thumbs@,
            texts(labels@),
            stamp@,
            i,
        ) by {
            assert(before.pixels@[i] == cell_pixel(
                *g,
                thumbs@,
                texts(labels@),
                thumbs@.len() as int,
                i,
            ));
            assert(sheet.pixels@[i] == lettered(
                before,
                bytes,
                bytes.len() as int,
                sx as int,
                sy as int,
                STAMP_COLOR,
                i,
            ));
        }
    }
    sheet
}

} // verus!
