//! Region maps: a label per pixel, and the statistics of the pixels that carry
//! each label.

use vstd::prelude::*;

verus! {

/// A single connected region's statistics.
#[derive(Clone, Copy, Debug, PartialEq, Eq)]
pub struct Region {
    /// Final contiguous region id (0, 1, ...).
    pub id: usize,
    /// Cluster index this region belongs to.
    pub cluster_id: usize,
    /// Region area in pixels.
    pub area: usize,
    /// Sum of the pixels' columns: the centroid's x is this over `area`.
    pub sum_x: u64,
    /// Sum of the pixels' rows: the centroid's y is this over `area`.
    pub sum_y: u64,
    /// Bounding box (min_x, min_y, max_x, max_y), inclusive.
    pub bbox: (u32, u32, u32, u32),
    /// Pixel count (same as area, kept for downstream compatibility).
    pub pixel_count: usize,
}

/// Colour palette of a segmentation.
#[derive(Clone, Debug)]
pub struct Palette {
    /// sRGB colours, 8 bits per channel.
    pub colors: Vec<[u8; 3]>,
    /// Pixel count per colour.
    pub counts: Vec<usize>,
}

/// Whether an image of `width` by `height` has `n` pixels, few enough for 32-bit
/// pixel and region numbers.
pub open spec fn frame(width: u32, height: u32, n: int) -> bool {
    &&& n == width * height
    &&& n <= u32::MAX
}

/// Whether pixel `i` carries the label `r`.
pub open spec fn carries(labels: Seq<Option<usize>>, r: int, i: int) -> bool {
    labels[i] is Some && labels[i]->Some_0 == r
}

/// Number of pixels below `k` that carry the label `r`.
pub open spec fn area_of(labels: Seq<Option<usize>>, r: int, k: int) -> nat
    decreases k,
{
    if k <= 0 {
        0
    } else {
        area_of(labels, r, k - 1) + if carries(labels, r, k - 1) { 1nat } else { 0nat }
    }
}

/// Sum of `vals` over the pixels below `k` that carry the label `r`.
pub open spec fn total_of(labels: Seq<Option<usize>>, vals: Seq<int>, r: int, k: int) -> int
    decreases k,
{
    if k <= 0 {
        0
    } else {
        total_of(labels, vals, r, k - 1) + if carries(labels, r, k - 1) { vals[k - 1] } else { 0 }
    }
}

/// `m` is the least of `vals` over the pixels below `k` that carry the label
/// `r`, or `start` where that is smaller or there are none.
pub open spec fn least_of(
    labels: Seq<Option<usize>>,
    vals: Seq<int>,
    r: int,
    k: int,
    start: int,
    m: int,
) -> bool {
    &&& m <= start
    &&& forall|i: int|
        #![trigger labels[i]]
        0 <= i < k && carries(labels, r, i) ==> m <= vals[i]
    &&& m == start || exists|i: int|
        #![trigger labels[i]]
        0 <= i < k && carries(labels, r, i) && m == vals[i]
}

/// `m` is the greatest of `vals` over the pixels below `k` that carry the label
/// `r`, or `start` where that is greater or there are none.
pub open spec fn greatest_of(
    labels: Seq<Option<usize>>,
    vals: Seq<int>,
    r: int,
    k: int,
    start: int,
    m: int,
) -> bool {
    &&& m >= start
    &&& forall|i: int|
        #![trigger labels[i]]
        0 <= i < k && carries(labels, r, i) ==> m >= vals[i]
    &&& m == start || exists|i: int|
        #![trigger labels[i]]
        0 <= i < k && carries(labels, r, i) && m == vals[i]
}

/// The column of each of `n` pixels.
pub open spec fn columns(w: int, n: nat) -> Seq<int> {
    Seq::new(n, |i: int| i % w)
}

/// The row of each of `n` pixels.
pub open spec fn rows(w: int, n: nat) -> Seq<int> {
    Seq::new(n, |i: int| i / w)
}

/// Column and row of a pixel lie inside the image.
pub proof fn pixel_in_frame(width: u32, height: u32, n: int, i: int)
    requires
        frame(width, height, n),
        0 <= i < n,
    ensures
        width > 0,
        height > 0,
        0 <= i % (width as int) < width,
        0 <= i / (width as int) < height,
        i == (i / (width as int)) * width + i % (width as int),
{
    let w = width as int;
    let h = height as int;
    assert(w > 0 && h > 0) by (nonlinear_arith)
        requires
            0 <= i < w * h,
            w >= 0,
            h >= 0,
    ;
    assert(i == w * (i / w) + i % w && 0 <= i % w < w) by (nonlinear_arith)
        requires
            w > 0,
    ;
    assert(w * (i / w) == (i / w) * w) by (nonlinear_arith);
    assert(0 <= i / w < h) by (nonlinear_arith)
        requires
            0 <= i < w * h,
            w > 0,
            i == w * (i / w) + i % w,
            0 <= i % w < w,
    ;
}

/// The next row exists exactly when there is a pixel one width further on.
pub proof fn row_below(width: u32, height: u32, n: int, i: int)
    requires
        frame(width, height, n),
        0 <= i < n,
    ensures
        i + width < n <==> i / (width as int) + 1 < height,
        i >= width <==> i / (width as int) > 0,
{
    pixel_in_frame(width, height, n, i);
    let w = width as int;
    let h = height as int;
    let y = i / w;
    let x = i % w;
    assert(i + w < w * h <==> y + 1 < h) by (nonlinear_arith)
        requires
            i == y * w + x,
            0 <= x < w,
            0 <= y < h,
    ;
    assert(i >= w <==> y > 0) by (nonlinear_arith)
        requires
            i == y * w + x,
            0 <= x < w,
            0 <= y,
    ;
}

/// A total of values in `0..=bound` is at most `bound` per pixel.
pub proof fn total_bounded(labels: Seq<Option<usize>>, vals: Seq<int>, r: int, k: int, bound: int)
    requires
        0 <= k,
        0 <= bound,
        forall|i: int| 0 <= i < k ==> 0 <= #[trigger] vals[i] <= bound,
    ensures
        0 <= total_of(labels, vals, r, k) <= k * bound,
        area_of(labels, r, k) <= k,
    decreases k,
{
    if k > 0 {
        total_bounded(labels, vals, r, k - 1, bound);
        assert(0 <= vals[k - 1] <= bound);
        assert((k - 1) * bound + bound == k * bound) by (nonlinear_arith);
    } else {
        assert(k * bound == 0) by (nonlinear_arith)
            requires
                k == 0,
        ;
    }
}

/// A total of values at most `bound` is at most `bound` times the area.
pub proof fn total_within_area(
    labels: Seq<Option<usize>>,
    vals: Seq<int>,
    r: int,
    k: int,
    bound: int,
)
    requires
        0 <= k,
        forall|i: int| 0 <= i < k ==> 0 <= #[trigger] vals[i] <= bound,
    ensures
        0 <= total_of(labels, vals, r, k) <= bound * area_of(labels, r, k),
    decreases k,
{
    if k > 0 {
        total_within_area(labels, vals, r, k - 1, bound);
        let a = area_of(labels, r, k - 1);
        assert(0 <= vals[k - 1] <= bound);
        assert(bound * (a + 1) == bound * a + bound) by (nonlinear_arith);
    } else {
        assert(bound * 0 == 0) by (nonlinear_arith);
    }
}

/// The area is positive exactly when some pixel carries the label.
pub proof fn area_positive(labels: Seq<Option<usize>>, r: int, k: int)
    ensures
        area_of(labels, r, k) > 0 <==> exists|i: int|
            #![trigger labels[i]]
            0 <= i < k && carries(labels, r, i),
    decreases k,
{
    if k > 0 {
        area_positive(labels, r, k - 1);
        if carries(labels, r, k - 1) {
            assert(labels[k - 1] is Some);
        }
    }
}

/// Sum of the areas of the labels below `m`.
pub open spec fn areas_sum(labels: Seq<Option<usize>>, m: int, k: int) -> nat
    decreases m,
{
    if m <= 0 {
        0
    } else {
        areas_sum(labels, m - 1, k) + area_of(labels, m - 1, k)
    }
}

/// Number of pixels below `k` that carry some label.
pub open spec fn labelled(labels: Seq<Option<usize>>, k: int) -> nat
    decreases k,
{
    if k <= 0 {
        0
    } else {
        labelled(labels, k - 1) + if labels[k - 1] is Some { 1nat } else { 0nat }
    }
}

/// The regions' areas add up to the number of labelled pixels: every labelled
/// pixel is counted in exactly one region.
pub proof fn areas_add_up(labels: Seq<Option<usize>>, m: int, k: int)
    requires
        0 <= k <= labels.len(),
        0 <= m,
        forall|i: int|
            #![trigger labels[i]]
            0 <= i < k && labels[i] is Some ==> labels[i]->Some_0 < m,
    ensures
        areas_sum(labels, m, k) == labelled(labels, k),
    decreases k,
{
    if k > 0 {
        areas_add_up(labels, m, k - 1);
        assert(labels[k - 1] is Some ==> labels[k - 1]->Some_0 < m);
        let own = if labels[k - 1] is Some {
            labels[k - 1]->Some_0 as int
        } else {
            -1
        };
        areas_one_more(labels, m, k, own);
    } else {
        areas_none(labels, m);
    }
}

proof fn areas_none(labels: Seq<Option<usize>>, m: int)
    ensures
        areas_sum(labels, m, 0) == 0,
    decreases m,
{
    if m > 0 {
        areas_none(labels, m - 1);
    }
}

proof fn areas_one_more(labels: Seq<Option<usize>>, m: int, k: int, own: int)
    requires
        0 < k <= labels.len(),
        own == if labels[k - 1] is Some {
            labels[k - 1]->Some_0 as int
        } else {
            -1
        },
    ensures
        areas_sum(labels, m, k) == areas_sum(labels, m, k - 1) + if 0 <= own < m {
            1nat
        } else {
            0nat
        },
    decreases m,
{
    if m > 0 {
        areas_one_more(labels, m - 1, k, own);
    }
}

/// Absolute difference.
pub open spec fn gap(a: int, b: int) -> int {
    if a >= b {
        a - b
    } else {
        b - a
    }
}

/// Distance of two pixels in steps to the left, right, up or down.
pub open spec fn steps(w: int, i: int, j: int) -> int {
    gap(i % w, j % w) + gap(i / w, j / w)
}

/// Pixel `j` is the left, right, upper or lower neighbour of pixel `i`.
pub open spec fn beside(w: int, n: int, i: int, j: int) -> bool {
    &&& 0 <= i < n
    &&& 0 <= j < n
    &&& {
        ||| (j == i - 1 && i % w > 0)
        ||| (j == i + 1 && i % w + 1 < w)
        ||| j == i - w
        ||| j == i + w
    }
}

/// A pixel is determined by its column and row.
pub proof fn pixel_at(w: int, x: int, y: int)
    requires
        0 <= x < w,
        0 <= y,
    ensures
        (y * w + x) % w == x,
        (y * w + x) / w == y,
        y * w + x >= 0,
{
    assert(y * w >= 0) by (nonlinear_arith)
        requires
            w >= 0,
            y >= 0,
    ;
    vstd::arithmetic::div_mod::lemma_fundamental_div_mod_converse(y * w + x, w, y, x);
}

/// A pixel inside the frame, by its column and row.
pub proof fn pixel_inside(width: u32, height: u32, n: int, x: int, y: int)
    requires
        frame(width, height, n),
        0 <= x < width,
        0 <= y < height,
    ensures
        0 <= y * width + x < n,
        (y * width + x) % (width as int) == x,
        (y * width + x) / (width as int) == y,
{
    let w = width as int;
    let h = height as int;
    pixel_at(w, x, y);
    assert(y * w + x < w * h) by (nonlinear_arith)
        requires
            0 <= x < w,
            0 <= y < h,
    ;
}

/// Column and row of the four neighbours.
pub proof fn neighbour_coordinates(width: u32, height: u32, n: int, i: int)
    requires
        frame(width, height, n),
        0 <= i < n,
    ensures
        ({
            let w = width as int;
            let x = i % w;
            let y = i / w;
            &&& x > 0 ==> 0 <= i - 1 && (i - 1) % w == x - 1 && (i - 1) / w == y
            &&& x + 1 < w ==> i + 1 < n && (i + 1) % w == x + 1 && (i + 1) / w == y
            &&& y > 0 <==> i >= w
            &&& y > 0 ==> (i - w) % w == x && (i - w) / w == y - 1
            &&& y + 1 < height <==> i + w < n
            &&& y + 1 < height ==> (i + w) % w == x && (i + w) / w == y + 1
        }),
{
    pixel_in_frame(width, height, n, i);
    row_below(width, height, n, i);
    let w = width as int;
    let x = i % w;
    let y = i / w;
    if x > 0 {
        pixel_inside(width, height, n, x - 1, y);
        assert(y * w + (x - 1) == i - 1);
    }
    if x + 1 < w {
        pixel_inside(width, height, n, x + 1, y);
        assert(y * w + (x + 1) == i + 1);
    }
    if y > 0 {
        pixel_inside(width, height, n, x, y - 1);
        assert((y - 1) * w == y * w - w) by (nonlinear_arith);
    }
    if y + 1 < height {
        pixel_inside(width, height, n, x, y + 1);
        assert((y + 1) * w == y * w + w) by (nonlinear_arith);
    }
}

} // verus!
