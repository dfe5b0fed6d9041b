//! Pictures of a segmentation: regions in colour, their boundaries, and both
//! laid over the image.

use vstd::prelude::*;
use crate::canvas::Canvas;
use crate::order::{key_order, stable_order};
use crate::region::{beside, frame, neighbour_coordinates, pixel_in_frame, Palette, Region};
use crate::segment::SegmentResult;

verus! {

/// Colour of pixels without a region.
pub const BLACK: [u8; 3] = [0, 0, 0];

/// Colour of regions that the palette does not hold.
pub const GREY: [u8; 3] = [128, 128, 128];

/// Colour of boundaries.
pub const LINE: [u8; 3] = [20, 20, 20];

/// Palette colour of a cluster, or `other` where the palette has none.
pub open spec fn cluster_color(palette: Seq<[u8; 3]>, cid: int, other: [u8; 3]) -> [u8; 3] {
    if cid < palette.len() {
        palette[cid]
    } else {
        other
    }
}

/// Colour of a pixel's region, black where it has none.
pub open spec fn label_color(
    label: Option<usize>,
    regions: Seq<Region>,
    palette: Seq<[u8; 3]>,
) -> [u8; 3] {
    match label {
        Some(rid) => if rid < regions.len() {
            cluster_color(palette, regions[rid as int].cluster_id as int, BLACK)
        } else {
            BLACK
        },
        None => BLACK,
    }
}

fn pick_color(palette: &Vec<[u8; 3]>, cid: usize, other: [u8; 3]) -> (c: [u8; 3])
    ensures
        c == cluster_color(palette@, cid as int, other),
{
    if cid < palette.len() {
        palette[cid]
    } else {
        other
    }
}

fn pick_label_color(label: Option<usize>, regions: &[Region], palette: &Vec<[u8; 3]>) -> (c: [u8; 3])
    ensures
        c == label_color(label, regions@, palette@),
{
    match label {
        Some(rid) => if rid < regions.len() {
            pick_color(palette, regions[rid].cluster_id, BLACK)
        } else {
            BLACK
        },
        None => BLACK,
    }
}

/// Fills every region with its palette colour.
pub fn gen_colored_overlay(result: &SegmentResult) -> (img: Canvas)
    requires
        frame(result.width, result.height, result.labels@.len() as int),
    ensures
        img.wf(),
        img.width == result.width,
        img.height == result.height,
        forall|i: int|
            #![trigger img.pixels@[i]]
            0 <= i < img.pixels@.len() ==> img.pixels@[i] == label_color(
                result.labels@[i],
                result.regions@,
                result.palette.colors@,
            ),
{
    let mut pixels: Vec<[u8; 3]> = Vec::new();
    let mut i: usize = 0;
    while i < result.labels.len()
        invariant
            i <= result.labels@.len(),
            pixels@.len() == i,
            forall|k: int|
                #![trigger pixels@[k]]
                0 <= k < i ==> pixels@[k] == label_color(
                    result.labels@[k],
                    result.regions@,
                    result.palette.colors@,
                ),
        decreases result.labels@.len() - i,
    {
        pixels.push(
            pick_label_color(
                result.labels[i],
                result.regions.as_slice(),
                &result.palette.colors,
            ),
        );
        i += 1;
    }
    Canvas { width: result.width, height: result.height, pixels }
}

/// The pixel lies in a region and has a neighbour with another label, or none.
pub open spec fn on_boundary(labels: Seq<Option<usize>>, w: int, i: int) -> bool {
    &&& labels[i] is Some
    &&& exists|j: int|
        #[trigger] beside(w, labels.len() as int, i, j) && labels[j] != labels[i]
}

/// Whether two labels are the same.
pub fn same_label(a: Option<usize>, b: Option<usize>) -> (r: bool)
    ensures
        r == (a == b),
{
    match (a, b) {
        (Some(x), Some(y)) => x == y,
        (None, None) => true,
        _ => false,
    }
}

/// Whether a pixel lies on a boundary.
pub fn is_boundary(labels: &[Option<usize>], w: u32, h: u32, i: usize) -> (r: bool)
    requires
        frame(w, h, labels@.len() as int),
        i < labels@.len(),
    ensures
        r == on_boundary(labels@, w as int, i as int),
{
    let cur = labels[i];
    if cur.is_none() {
        return false;
    }
    let n = labels.len();
    let ws = w as usize;
    proof {
        pixel_in_frame(w, h, n as int, i as int);
        neighbour_coordinates(w, h, n as int, i as int);
    }
    let x = i % ws;
    let ghost wi = w as int;
    if x > 0 && !same_label(labels[i - 1], cur) {
        assert(beside(wi, n as int, i as int, i - 1));
        return true;
    }
    if x + 1 < ws && !same_label(labels[i + 1], cur) {
        assert(beside(wi, n as int, i as int, i + 1));
        return true;
    }
    if i >= ws && !same_label(labels[i - ws], cur) {
        assert(beside(wi, n as int, i as int, i - ws));
        return true;
    }
    if n - i > ws && !same_label(labels[i + ws], cur) {
        assert(beside(wi, n as int, i as int, i + ws));
        return true;
    }
    false
}

/// Draws the boundaries dark and opaque, all else transparent.
pub fn gen_boundary_overlay(labels: &[Option<usize>], w: u32, h: u32) -> (img: Vec<[u8; 4]>)
    requires
        frame(w, h, labels@.len() as int),
    ensures
        img@.len() == labels@.len(),
        forall|i: int|
            #![trigger img@[i]]
            0 <= i < img@.len() ==> img@[i] == if on_boundary(labels@, w as int, i) {
                [20u8, 20u8, 20u8, 255u8]
            } else {
                [0u8, 0u8, 0u8, 0u8]
            },
{
    let mut img: Vec<[u8; 4]> = Vec::new();
    let mut i: usize = 0;
    while i < labels.len()
        invariant
            i <= labels@.len(),
            frame(w, h, labels@.len() as int),
            img@.len() == i,
            forall|k: int|
                #![trigger img@[k]]
                0 <= k < i ==> img@[k] == if on_boundary(labels@, w as int, k) {
                    [20u8, 20u8, 20u8, 255u8]
                } else {
                    [0u8, 0u8, 0u8, 0u8]
                },
        decreases labels@.len() - i,
    {
        if is_boundary(labels, w, h, i) {
            img.push([20, 20, 20, 255]);
        } else {
            img.push([0, 0, 0, 0]);
        }
        i += 1;
    }
    img
}

/// Marks the pixels on boundaries.
pub fn boundary_marks(labels: &[Option<usize>], w: u32, h: u32) -> (marks: Vec<bool>)
    requires
        frame(w, h, labels@.len() as int),
    ensures
        marks@.len() == labels@.len(),
        forall|i: int|
            #![trigger marks@[i]]
            0 <= i < marks@.len() ==> marks@[i] == on_boundary(labels@, w as int, i),
{
    let mut marks: Vec<bool> = Vec::new();
    let mut i: usize = 0;
    while i < labels.len()
        invariant
            i <= labels@.len(),
            frame(w, h, labels@.len() as int),
            marks@.len() == i,
            forall|k: int|
                #![trigger marks@[k]]
                0 <= k < i ==> marks@[k] == on_boundary(labels@, w as int, k),
        decreases labels@.len() - i,
    {
        marks.push(is_boundary(labels, w, h, i));
        i += 1;
    }
    marks
}

/// `c` is a blend of `over` and `under`, channel by channel.
pub open spec fn blended<B: Fn(u8, u8) -> u8>(
    blend: B,
    over: [u8; 3],
    under: [u8; 3],
    c: [u8; 3],
) -> bool {
    &&& call_ensures(blend, (over[0], under[0]), c[0])
    &&& call_ensures(blend, (over[1], under[1]), c[1])
    &&& call_ensures(blend, (over[2], under[2]), c[2])
}

/// Pixel of a rendered segmentation: the line colour on boundaries, elsewhere
/// the region's colour blended over the image.
pub open spec fn rendered<B: Fn(u8, u8) -> u8>(
    blend: B,
    original: Seq<[u8; 3]>,
    labels: Seq<Option<usize>>,
    regions: Seq<Region>,
    palette: Seq<[u8; 3]>,
    w: int,
    i: int,
    c: [u8; 3],
) -> bool {
    if on_boundary(labels, w, i) {
        c == LINE
    } else {
        blended(blend, label_color(labels[i], regions, palette), original[i], c)
    }
}

/// Renders a segmentation over its image: `blend` mixes a channel of the
/// region's colour with one of the image, and boundaries are drawn on top.
pub fn render_segmented_png<B: Fn(u8, u8) -> u8>(
    original: &[[u8; 3]],
    labels: &[Option<usize>],
    palette: &Palette,
    regions: &[Region],
    width: u32,
    height: u32,
    blend: &B,
) -> (out: Canvas)
    requires
        frame(width, height, labels@.len() as int),
        original@.len() == labels@.len(),
        forall|a: u8, b: u8| #[trigger] call_requires(*blend, (a, b)),
    ensures
        out.wf(),
        out.width == width,
        out.height == height,
        forall|i: int|
            #![trigger out.pixels@[i]]
            0 <= i < out.pixels@.len() ==> rendered(
                *blend,
                original@,
                labels@,
                regions@,
                palette.colors@,
                width as int,
                i,
                out.pixels@[i],
            ),
{
    let mut pixels: Vec<[u8; 3]> = Vec::new();
    let mut i: usize = 0;
    while i < labels.len()
        invariant
            i <= labels@.len(),
            frame(width, height, labels@.len() as int),
            original@.len() == labels@.len(),
            forall|a: u8, b: u8| #[trigger] call_requires(*blend, (a, b)),
            pixels@.len() == i,
            forall|k: int|
                #![trigger pixels@[k]]
                0 <= k < i ==> rendered(
                    *blend,
                    original@,
                    labels@,
                    regions@,
                    palette.colors@,
                    width as int,
                    k,
                    pixels@[k],
                ),
        decreases labels@.len() - i,
    {
        if is_boundary(labels, width, height, i) {
            pixels.push(LINE);
        } else {
            let over = pick_label_color(labels[i], regions, &palette.colors);
            let under = original[i];
            let c = [
                blend(over[0], under[0]),
                blend(over[1], under[1]),
                blend(over[2], under[2]),
            ];
            assert(blended(*blend, over, under, c));
            pixels.push(c);
        }
        i += 1;
    }
    Canvas { width, height, pixels }
}

/// Sort keys under which larger regions come first.
pub open spec fn area_keys(regions: Seq<Region>) -> Seq<u64> {
    Seq::new(regions.len(), |i: int| (u64::MAX - regions[i].area) as u64)
}

/// The colours of the first `k` regions by area, larger ones first, equal ones
/// in their order.
pub open spec fn largest_colors(regions: Seq<Region>, palette: Seq<[u8; 3]>, k: int) -> Seq<[u8; 3]> {
    Seq::new(
        k as nat,
        |i: int|
            cluster_color(
                palette,
                regions[key_order(area_keys(regions))[i] as int].cluster_id as int,
                GREY,
            ),
    )
}

/// The colours of the five largest regions, or of all where there are fewer.
pub fn top_colors(regions: &[Region], palette: &Palette) -> (colors: Vec<[u8; 3]>)
    ensures
        colors@ == largest_colors(
            regions@,
            palette.colors@,
            if regions@.len() < 5 {
                regions@.len() as int
            } else {
                5
            },
        ),
{
    let mut keys: Vec<u64> = Vec::new();
    let mut i: usize = 0;
    while i < regions.len()
        invariant
            i <= regions@.len(),
            keys@.len() == i,
            forall|k: int| #![trigger keys@[k]] 0 <= k < i ==> keys@[k] == area_keys(regions@)[k],
        decreases regions@.len() - i,
    {
        keys.push(u64::MAX - regions[i].area as u64);
        i += 1;
    }
    assert(keys@ =~= area_keys(regions@));
    let p = stable_order(keys.as_slice());
    let count: usize = if regions.len() < 5 {
        regions.len()
    } else {
        5
    };
    let mut colors: Vec<[u8; 3]> = Vec::new();
    let mut i: usize = 0;
    while i < count
        invariant
            i <= count <= regions@.len(),
            p@.len() == regions@.len(),
            p@ == key_order(area_keys(regions@)),
            forall|k: int| #![trigger p@[k]] 0 <= k < p@.len() ==> p@[k] < regions@.len(),
            colors@.len() == i,
            forall|k: int|
                #![trigger colors@[k]]
                0 <= k < i ==> colors@[k] == largest_colors(
                    regions@,
                    palette.colors@,
                    count as int,
                )[k],
        decreases count - i,
    {
        colors.push(pick_color(&palette.colors, regions[p[i]].cluster_id, GREY));
        i += 1;
    }
    assert(colors@ =~= largest_colors(regions@, palette.colors@, count as int));
    colors
}

/// A pixel is outlined exactly where it has a region and a neighbour to the left,
/// to the right, above or below that is not of that region.
pub proof fn outlines_follow_neighbours(labels: Seq<Option<usize>>, w: int, i: int)
    requires
        w >= 1,
        0 <= i < labels.len(),
    ensures
        on_boundary(labels, w, i) <==> labels[i] is Some && ((i % w > 0 && i >= 1 && labels[i - 1]
            != labels[i]) || (i % w + 1 < w && i + 1 < labels.len() && labels[i + 1] != labels[i])
            || (i >= w && labels[i - w] != labels[i]) || (i + w < labels.len() && labels[i + w]
            != labels[i])),
{
    let n = labels.len() as int;
    if i % w > 0 && i >= 1 && labels[i - 1] != labels[i] {
        assert(beside(w, n, i, i - 1) && labels[i - 1] != labels[i]);
    }
    if i % w + 1 < w && i + 1 < n && labels[i + 1] != labels[i] {
        assert(beside(w, n, i, i + 1) && labels[i + 1] != labels[i]);
    }
    if i >= w && labels[i - w] != labels[i] {
        assert(beside(w, n, i, i - w) && labels[i - w] != labels[i]);
    }
    if i + w < n && labels[i + w] != labels[i] {
        assert(beside(w, n, i, i + w) && labels[i + w] != labels[i]);
    }
}

/// A pixel shows the colour of its region's cluster; one without region, without a
/// known region or without a known cluster is black.
pub proof fn pixels_show_their_cluster(
    label: Option<usize>,
    regions: Seq<Region>,
    palette: Seq<[u8; 3]>,
)
    ensures
        label is Some && label->Some_0 < regions.len() && regions[label->Some_0 as int].cluster_id
            < palette.len() ==> label_color(label, regions, palette)
            == palette[regions[label->Some_0 as int].cluster_id as int],
        label is None || label->Some_0 >= regions.len() ==> label_color(label, regions, palette)
            == [0u8, 0u8, 0u8],
        label is Some && label->Some_0 < regions.len() && regions[label->Some_0 as int].cluster_id
            >= palette.len() ==> label_color(label, regions, palette) == [0u8, 0u8, 0u8],
{
}

/// Outlined pixels are nearly black, all others mix their region's colour over the
/// picture.
pub proof fn rendering_outlines_regions<B: Fn(u8, u8) -> u8>(
    blend: B,
    original: Seq<[u8; 3]>,
    labels: Seq<Option<usize>>,
    regions: Seq<Region>,
    palette: Seq<[u8; 3]>,
    w: int,
    i: int,
    c: [u8; 3],
    ch: int,
)
    requires
        rendered(blend, original, labels, regions, palette, w, i, c),
        0 <= ch < 3,
    ensures
        on_boundary(labels, w, i) ==> c == [20u8, 20u8, 20u8],
        !on_boundary(labels, w, i) ==> call_ensures(
            blend,
            (label_color(labels[i], regions, palette)[ch], original[i][ch]),
            c[ch],
        ),
{
}

/// The leading colours are those of the largest regions, the largest first, equal
/// ones in order.
pub proof fn leading_colors_are_of_the_largest(
    regions: Seq<Region>,
    palette: Seq<[u8; 3]>,
    k: int,
    i: int,
    r: int,
) -> (order: Seq<usize>)
    requires
        0 <= i < k <= regions.len() <= usize::MAX,
        0 <= r < regions.len(),
    ensures
        order.len() == regions.len(),
        order[i] < regions.len(),
        regions[order[i] as int].cluster_id < palette.len() ==> largest_colors(
            regions,
            palette,
            k,
        )[i] == palette[regions[order[i] as int].cluster_id as int],
        i + 1 < k ==> regions[order[i] as int].area >= regions[order[i + 1] as int].area,
        (forall|j: int| 0 <= j <= i ==> #[trigger] order[j] != r) ==> regions[r].area
            <= regions[order[i] as int].area,
{
    let keys = area_keys(regions);
    crate::order::key_order_exists(keys);
    let order = key_order(keys);
    if i + 1 < k {
        assert(crate::order::precedes(keys, order[i] as int, order[i + 1] as int));
    }
    if forall|j: int| 0 <= j <= i ==> #[trigger] order[j] != r {
        crate::order::permutation_reaches(order, keys.len() as int, r);
        let at = choose|at: int| 0 <= at < order.len() && order[at] == r;
        assert(at > i);
        assert(crate::order::precedes(keys, order[i] as int, order[at] as int));
    }
    order
}

/// Every region that borders another is outlined on both sides of the border.
pub proof fn boundaries_have_two_sides(labels: Seq<Option<usize>>, w: int, i: int, j: int)
    requires
        w >= 1,
        beside(w, labels.len() as int, i, j),
        labels[i] is Some,
        labels[j] is Some,
        labels[i] != labels[j],
    ensures
        on_boundary(labels, w, i),
        on_boundary(labels, w, j),
{
    let n = labels.len() as int;
    assert(beside(w, n, j, i)) by {
        if j == i - 1 && i % w > 0 {
            assert(j % w + 1 < w) by (nonlinear_arith)
                requires
                    w >= 1,
                    j == i - 1,
                    i % w > 0,
                    i >= 0,
            ;
        } else if j == i + 1 && i % w + 1 < w {
            assert(j % w > 0) by (nonlinear_arith)
                requires
                    w >= 1,
                    j == i + 1,
                    i % w + 1 < w,
                    i >= 0,
            ;
        }
    }
}

} // verus!
