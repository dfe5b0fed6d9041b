//! Block segmentation of flat-coloured images: region growing over similar
//! neighbours, then merging over the region adjacency graph.

use vstd::prelude::*;
use crate::classes::{
    class_count, class_number, class_numbers_dense, connected, edges_within, is_classes, join_all,
    join_all_is_classes, join_all_is_connectivity,
};
use crate::region::{
    area_of, carries, columns, frame, gap, greatest_of, least_of, pixel_in_frame, rows, total_bounded,
    total_of,
};
use crate::scalar::Scalar;
use crate::uf::Uf;

verus! {

/// What region growing looks at in a pixel: its colour, and luma and chroma of
/// the YCoCg kind.
#[derive(Clone, Copy, Debug, PartialEq, Eq, Structural)]
pub struct PixelFeature {
    pub r: u8,
    pub g: u8,
    pub b: u8,
    pub y: i16,
    pub co: i16,
    pub cg: i16,
}

impl PixelFeature {
    /// The derived channels are those of the colour.
    pub open spec fn wf(self) -> bool {
        &&& self.y == (self.r + 2 * self.g + self.b) / 4
        &&& self.co == self.r - self.b
        &&& self.cg == 2 * self.g - self.r - self.b
    }

    /// The feature of a colour.
    pub fn from_rgb(rgb: [u8; 3]) -> (f: PixelFeature)
        ensures
            f.wf(),
            f.r == rgb[0],
            f.g == rgb[1],
            f.b == rgb[2],
            4 * f.y <= rgb[0] + 2 * rgb[1] + rgb[2] < 4 * f.y + 4,
            f.co == rgb[0] - rgb[2],
            f.cg == 2 * rgb[1] - rgb[0] - rgb[2],
    {
        let r = rgb[0] as i16;
        let g = rgb[1] as i16;
        let b = rgb[2] as i16;
        PixelFeature {
            r: rgb[0],
            g: rgb[1],
            b: rgb[2],
            y: (r + 2 * g + b) / 4,
            co: r - b,
            cg: 2 * g - r - b,
        }
    }
}

/// All features are well formed.
pub open spec fn all_wf(px: Seq<PixelFeature>) -> bool {
    forall|i: int| 0 <= i < px.len() ==> (#[trigger] px[i]).wf()
}

/// The features of an image's pixels.
pub fn extract_features(pixels: &[[u8; 3]]) -> (px: Vec<PixelFeature>)
    ensures
        px@.len() == pixels@.len(),
        all_wf(px@),
        forall|i: int|
            0 <= i < px@.len() ==> {
                &&& (#[trigger] px@[i]).r == pixels@[i][0]
                &&& px@[i].g == pixels@[i][1]
                &&& px@[i].b == pixels@[i][2]
            },
{
    let mut px: Vec<PixelFeature> = Vec::new();
    let mut i: usize = 0;
    while i < pixels.len()
        invariant
            i <= pixels@.len(),
            px@.len() == i,
            all_wf(px@),
            forall|k: int|
                0 <= k < i ==> {
                    &&& (#[trigger] px@[k]).r == pixels@[k][0]
                    &&& px@[k].g == pixels@[k][1]
                    &&& px@[k].b == pixels@[k][2]
                },
        decreases pixels@.len() - i,
    {
        px.push(PixelFeature::from_rgb(pixels[i]));
        i += 1;
    }
    px
}

/// Colour and position sums of a region under construction.
#[derive(Clone, Copy, Debug, PartialEq, Eq, Structural)]
pub struct RegionStats {
    pub id: usize,
    pub area: usize,
    pub sum_x: u64,
    pub sum_y: u64,
    pub sum_r: u64,
    pub sum_g: u64,
    pub sum_b: u64,
    pub min_x: u32,
    pub min_y: u32,
    pub max_x: u32,
    pub max_y: u32,
}

/// The red channel.
pub open spec fn reds(px: Seq<PixelFeature>) -> Seq<int> {
    Seq::new(px.len(), |i: int| px[i].r as int)
}

/// The green channel.
pub open spec fn greens(px: Seq<PixelFeature>) -> Seq<int> {
    Seq::new(px.len(), |i: int| px[i].g as int)
}

/// The blue channel.
pub open spec fn blues(px: Seq<PixelFeature>) -> Seq<int> {
    Seq::new(px.len(), |i: int| px[i].b as int)
}

/// Statistics of a region in unbounded numbers.
pub ghost struct Tally {
    pub area: int,
    pub sum_x: int,
    pub sum_y: int,
    pub sum_r: int,
    pub sum_g: int,
    pub sum_b: int,
    pub min_x: int,
    pub min_y: int,
    pub max_x: int,
    pub max_y: int,
}

/// The smaller of two numbers.
pub open spec fn lesser(a: int, b: int) -> int {
    if b < a {
        b
    } else {
        a
    }
}

/// The greater of two numbers.
pub open spec fn larger(a: int, b: int) -> int {
    if b > a {
        b
    } else {
        a
    }
}

/// The tally with one more pixel, given by its place and its feature.
pub open spec fn with_pixel(t: Tally, width: int, p: (int, PixelFeature)) -> Tally {
    let x = p.0 % width;
    let y = p.0 / width;
    Tally {
        area: t.area + 1,
        sum_x: t.sum_x + x,
        sum_y: t.sum_y + y,
        sum_r: t.sum_r + p.1.r,
        sum_g: t.sum_g + p.1.g,
        sum_b: t.sum_b + p.1.b,
        min_x: lesser(t.min_x, x),
        min_y: lesser(t.min_y, y),
        max_x: larger(t.max_x, x),
        max_y: larger(t.max_y, y),
    }
}

/// The tally of no pixels.
pub open spec fn empty_tally(width: u32, height: u32) -> Tally {
    Tally {
        area: 0,
        sum_x: 0,
        sum_y: 0,
        sum_r: 0,
        sum_g: 0,
        sum_b: 0,
        min_x: width as int,
        min_y: height as int,
        max_x: 0,
        max_y: 0,
    }
}

/// The tally after the pixels have been added one by one.
pub open spec fn with_pixels(t: Tally, width: int, pixels: Seq<(int, PixelFeature)>) -> Tally {
    pixels.fold_left(t, |t: Tally, p: (int, PixelFeature)| with_pixel(t, width, p))
}

/// The pixels below `k` that carry the label `id`, in the order of the image.
pub open spec fn members(
    labels: Seq<Option<usize>>,
    px: Seq<PixelFeature>,
    id: int,
    k: int,
) -> Seq<(int, PixelFeature)>
    decreases k,
{
    if k <= 0 {
        seq![]
    } else if carries(labels, id, k - 1) {
        members(labels, px, id, k - 1).push((k - 1, px[k - 1]))
    } else {
        members(labels, px, id, k - 1)
    }
}

/// The order in which pixels are added makes no difference.
pub proof fn tally_ignores_order(
    t: Tally,
    width: int,
    a: Seq<(int, PixelFeature)>,
    b: Seq<(int, PixelFeature)>,
)
    requires
        a.to_multiset() == b.to_multiset(),
    ensures
        with_pixels(t, width, a) == with_pixels(t, width, b),
{
    let f = |t: Tally, p: (int, PixelFeature)| with_pixel(t, width, p);
    assert forall|x: (int, PixelFeature), y: (int, PixelFeature), v: Tally| #[trigger]
        f(f(v, x), y) == f(f(v, y), x) by {
        assert(f(f(v, x), y) == with_pixel(with_pixel(v, width, x), width, y));
        assert(f(f(v, y), x) == with_pixel(with_pixel(v, width, y), width, x));
    }
    vstd::seq_lib::lemma_fold_left_permutation(a, b, f, t);
}

proof fn members_tally(
    labels: Seq<Option<usize>>,
    px: Seq<PixelFeature>,
    width: u32,
    height: u32,
    id: int,
    k: int,
)
    requires
        labels.len() == px.len(),
        0 <= k <= px.len(),
    ensures
        ({
            let t = with_pixels(
                empty_tally(width, height),
                width as int,
                members(labels, px, id, k),
            );
            let xs = columns(width as int, px.len());
            let ys = rows(width as int, px.len());
            &&& t.area == area_of(labels, id, k)
            &&& t.sum_x == total_of(labels, xs, id, k)
            &&& t.sum_y == total_of(labels, ys, id, k)
            &&& t.sum_r == total_of(labels, reds(px), id, k)
            &&& t.sum_g == total_of(labels, greens(px), id, k)
            &&& t.sum_b == total_of(labels, blues(px), id, k)
            &&& least_of(labels, xs, id, k, width as int, t.min_x)
            &&& least_of(labels, ys, id, k, height as int, t.min_y)
            &&& greatest_of(labels, xs, id, k, 0, t.max_x)
            &&& greatest_of(labels, ys, id, k, 0, t.max_y)
        }),
    decreases k,
{
    let w = width as int;
    let start = empty_tally(width, height);
    let f = |t: Tally, p: (int, PixelFeature)| with_pixel(t, w, p);
    let now = members(labels, px, id, k);
    if k > 0 {
        members_tally(labels, px, width, height, id, k - 1);
        let before = members(labels, px, id, k - 1);
        assert(labels[k - 1] == labels[k - 1]);
        if carries(labels, id, k - 1) {
            assert(now.drop_last() =~= before);
            assert(now.last() == (k - 1, px[k - 1]));
            assert(with_pixels(start, w, now) == with_pixel(
                with_pixels(start, w, before),
                w,
                (k - 1, px[k - 1]),
            ));
        }
    }
}

/// What is collected of a region is the tally of its pixels, in whichever order
/// they are added.
pub proof fn region_tally_ignores_order(
    s: RegionStats,
    id: int,
    labels: Seq<Option<usize>>,
    px: Seq<PixelFeature>,
    width: u32,
    height: u32,
    order: Seq<(int, PixelFeature)>,
)
    requires
        labels.len() == px.len(),
        s.describes(id, labels, px, width, height, px.len() as int),
        order.to_multiset() == members(labels, px, id, px.len() as int).to_multiset(),
    ensures
        s.tally() == with_pixels(empty_tally(width, height), width as int, order),
{
    let n = px.len() as int;
    members_tally(labels, px, width, height, id, n);
    tally_ignores_order(
        empty_tally(width, height),
        width as int,
        order,
        members(labels, px, id, n),
    );
}

impl RegionStats {
    /// The statistics in unbounded numbers.
    pub open spec fn tally(self) -> Tally {
        Tally {
            area: self.area as int,
            sum_x: self.sum_x as int,
            sum_y: self.sum_y as int,
            sum_r: self.sum_r as int,
            sum_g: self.sum_g as int,
            sum_b: self.sum_b as int,
            min_x: self.min_x as int,
            min_y: self.min_y as int,
            max_x: self.max_x as int,
            max_y: self.max_y as int,
        }
    }

    /// The statistics are those of the pixels below `k` that carry the label `id`.
    pub open spec fn describes(
        self,
        id: int,
        labels: Seq<Option<usize>>,
        px: Seq<PixelFeature>,
        width: u32,
        height: u32,
        k: int,
    ) -> bool {
        let xs = columns(width as int, px.len());
        let ys = rows(width as int, px.len());
        &&& self.id == id
        &&& self.area == area_of(labels, id, k)
        &&& self.sum_x == total_of(labels, xs, id, k)
        &&& self.sum_y == total_of(labels, ys, id, k)
        &&& self.sum_r == total_of(labels, reds(px), id, k)
        &&& self.sum_g == total_of(labels, greens(px), id, k)
        &&& self.sum_b == total_of(labels, blues(px), id, k)
        &&& least_of(labels, xs, id, k, width as int, self.min_x as int)
        &&& least_of(labels, ys, id, k, height as int, self.min_y as int)
        &&& greatest_of(labels, xs, id, k, 0, self.max_x as int)
        &&& greatest_of(labels, ys, id, k, 0, self.max_y as int)
    }

    /// Statistics of no pixels.
    pub fn new(id: usize, width: u32, height: u32) -> (s: RegionStats)
        ensures
            s.tally() == empty_tally(width, height),
            s == (RegionStats {
                id,
                area: 0,
                sum_x: 0,
                sum_y: 0,
                sum_r: 0,
                sum_g: 0,
                sum_b: 0,
                min_x: width,
                min_y: height,
                max_x: 0,
                max_y: 0,
            }),
    {
        RegionStats {
            id,
            area: 0,
            sum_x: 0,
            sum_y: 0,
            sum_r: 0,
            sum_g: 0,
            sum_b: 0,
            min_x: width,
            min_y: height,
            max_x: 0,
            max_y: 0,
        }
    }

    /// Adds the pixel at `idx` of an image `width` pixels wide.
    pub fn add_pixel(&mut self, idx: usize, width: usize, px: PixelFeature)
        requires
            width > 0,
            width <= u32::MAX,
            idx <= u32::MAX,
            old(self).area < usize::MAX,
            old(self).sum_x + idx % width <= u64::MAX,
            old(self).sum_y + idx / width <= u64::MAX,
            old(self).sum_r + px.r <= u64::MAX,
            old(self).sum_g + px.g <= u64::MAX,
            old(self).sum_b + px.b <= u64::MAX,
        ensures
            final(self).id == old(self).id,
            final(self).tally() == with_pixel(old(self).tally(), width as int, (idx as int, px)),
    {
        proof {
            assert(0 <= (idx as int) / (width as int) <= idx) by (nonlinear_arith)
                requires
                    width > 0,
                    idx >= 0,
            ;
        }
        let x = (idx % width) as u32;
        let y = (idx / width) as u32;
        self.area += 1;
        self.sum_x += x as u64;
        self.sum_y += y as u64;
        self.sum_r += px.r as u64;
        self.sum_g += px.g as u64;
        self.sum_b += px.b as u64;
        if x < self.min_x {
            self.min_x = x;
        }
        if y < self.min_y {
            self.min_y = y;
        }
        if x > self.max_x {
            self.max_x = x;
        }
        if y > self.max_y {
            self.max_y = y;
        }
    }

    /// The mean of a channel total, to the nearest integer, halves upward.
    pub open spec fn rounded_mean(total: int, n: int) -> int {
        (total + n / 2) / n
    }

    /// The region's mean colour, black for an empty region.
    pub fn mean_rgb(&self) -> (rgb: [u8; 3])
        requires
            self.sum_r <= 255 * self.area,
            self.sum_g <= 255 * self.area,
            self.sum_b <= 255 * self.area,
            self.area <= u32::MAX,
        ensures
            self.area == 0 ==> rgb@ == seq![0u8, 0u8, 0u8],
            self.area > 0 ==> {
                &&& rgb[0] == Self::rounded_mean(self.sum_r as int, self.area as int)
                &&& rgb[1] == Self::rounded_mean(self.sum_g as int, self.area as int)
                &&& rgb[2] == Self::rounded_mean(self.sum_b as int, self.area as int)
            },
    {
        if self.area == 0 {
            return [0, 0, 0];
        }
        let n = self.area as u64;
        proof {
            rounded_mean_fits(self.sum_r as int, n as int);
            rounded_mean_fits(self.sum_g as int, n as int);
            rounded_mean_fits(self.sum_b as int, n as int);
        }
        [
            ((self.sum_r + n / 2) / n) as u8,
            ((self.sum_g + n / 2) / n) as u8,
            ((self.sum_b + n / 2) / n) as u8,
        ]
    }
}

proof fn rounded_mean_fits(total: int, n: int)
    requires
        0 <= total <= 255 * n,
        0 < n,
    ensures
        0 <= RegionStats::rounded_mean(total, n) <= 255,
{
    let m = total + n / 2;
    assert(m / n <= 255) by (nonlinear_arith)
        requires
            m < 256 * n,
            n > 0,
    ;
    assert(0 <= m / n) by (nonlinear_arith)
        requires
            m >= 0,
            n > 0,
    ;
}

/// Thresholds of region growing.
#[derive(Clone, Copy, Debug)]
pub struct GrowLimits {
    /// Squared colour distance from which two neighbours are separated.
    pub strong_sq: u32,
    /// Luma difference from which two neighbours are separated.
    pub y_limit: i16,
    /// Chroma difference from which two neighbours are separated.
    pub chroma_limit: i16,
    /// Greatest squared colour distance over which two neighbours are linked.
    pub link_sq: u32,
    /// Edge hint from which two neighbours are separated.
    pub edge_wall: Scalar,
}

/// Squared distance of two colours.
pub open spec fn rgb_dist_sq(a: PixelFeature, b: PixelFeature) -> int {
    let dr = a.r - b.r;
    let dg = a.g - b.g;
    let db = a.b - b.b;
    dr * dr + dg * dg + db * db
}

/// Two neighbours differ so much that an edge runs between them.
pub open spec fn strong_boundary(a: PixelFeature, b: PixelFeature, lim: GrowLimits) -> bool {
    ||| rgb_dist_sq(a, b) >= lim.strong_sq
    ||| gap(a.y as int, b.y as int) >= lim.y_limit
    ||| gap(a.co as int, b.co as int) + gap(a.cg as int, b.cg as int) >= lim.chroma_limit
}

/// Two neighbours belong to one block.
pub open spec fn can_connect(
    a: PixelFeature,
    b: PixelFeature,
    hint: Scalar,
    lim: GrowLimits,
) -> bool {
    &&& !strong_boundary(a, b, lim)
    &&& !lim.edge_wall.le(hint)
    &&& rgb_dist_sq(a, b) <= lim.link_sq
}

fn square_gap(a: u8, b: u8) -> (d: u32)
    ensures
        d == (a - b) * (a - b),
        d <= 65025,
{
    let g: u32 = if a >= b {
        (a - b) as u32
    } else {
        (b - a) as u32
    };
    proof {
        let x = a - b;
        assert(g * g == x * x) by (nonlinear_arith)
            requires
                g == x || g == -x,
        ;
        assert(g * g <= 255 * 255) by (nonlinear_arith)
            requires
                0 <= g <= 255,
        ;
    }
    g * g
}

/// Squared distance of two colours.
pub fn rgb_dist_sq_u8(a: PixelFeature, b: PixelFeature) -> (d: u32)
    ensures
        d == rgb_dist_sq(a, b),
        d <= 195075,
{
    square_gap(a.r, b.r) + square_gap(a.g, b.g) + square_gap(a.b, b.b)
}

fn gap_i16(a: i16, b: i16) -> (d: i16)
    requires
        -1100 <= a <= 1100,
        -1100 <= b <= 1100,
    ensures
        d == gap(a as int, b as int),
{
    if a >= b {
        a - b
    } else {
        b - a
    }
}

/// Whether an edge runs between two neighbours, judged by colour, luma and chroma.
pub fn is_strong_neighbor_boundary(a: PixelFeature, b: PixelFeature, lim: &GrowLimits) -> (r: bool)
    requires
        a.wf(),
        b.wf(),
    ensures
        r == strong_boundary(a, b, *lim),
{
    if rgb_dist_sq_u8(a, b) >= lim.strong_sq {
        return true;
    }
    if gap_i16(a.y, b.y) >= lim.y_limit {
        return true;
    }
    gap_i16(a.co, b.co) + gap_i16(a.cg, b.cg) >= lim.chroma_limit
}

/// Whether two neighbours belong to one block; `hint` is the edge strength
/// measured across them.
pub fn can_connect_neighbors(
    a: PixelFeature,
    b: PixelFeature,
    hint: Scalar,
    lim: &GrowLimits,
) -> (r: bool)
    requires
        a.wf(),
        b.wf(),
    ensures
        r == can_connect(a, b, hint, *lim),
{
    if is_strong_neighbor_boundary(a, b, lim) || lim.edge_wall.at_most(&hint) {
        return false;
    }
    rgb_dist_sq_u8(a, b) <= lim.link_sq
}

/// Links of the first `k` pixels to their left and upper neighbours.
pub open spec fn grow_edges(
    px: Seq<PixelFeature>,
    hint_left: Seq<Scalar>,
    hint_up: Seq<Scalar>,
    w: int,
    lim: GrowLimits,
    k: int,
) -> Seq<(int, int)>
    decreases k,
{
    if k <= 0 {
        seq![]
    } else {
        let i = k - 1;
        let before = grow_edges(px, hint_left, hint_up, w, lim, i);
        let left = if i % w > 0 && can_connect(px[i], px[i - 1], hint_left[i], lim) {
            before.push((i, i - 1))
        } else {
            before
        };
        if i >= w && can_connect(px[i], px[i - w], hint_up[i], lim) {
            left.push((i, i - w))
        } else {
            left
        }
    }
}

/// The blocks of an image: pixels linked through similar neighbours.
pub open spec fn blocks(
    px: Seq<PixelFeature>,
    hint_left: Seq<Scalar>,
    hint_up: Seq<Scalar>,
    w: int,
    lim: GrowLimits,
) -> Seq<int> {
    join_all(px.len(), grow_edges(px, hint_left, hint_up, w, lim, px.len() as int))
}

/// The links join a pixel to its left neighbour in the same row or to the pixel
/// above it, exactly where the two can connect.
pub proof fn grow_edges_are_links(
    px: Seq<PixelFeature>,
    hint_left: Seq<Scalar>,
    hint_up: Seq<Scalar>,
    w: int,
    lim: GrowLimits,
    k: int,
)
    requires
        w > 0,
        0 <= k <= px.len(),
    ensures
        edges_within(k as nat, grow_edges(px, hint_left, hint_up, w, lim, k)),
        forall|i: int, j: int|
            grow_edges(px, hint_left, hint_up, w, lim, k).contains((i, j)) <==> {
                &&& 0 <= i < k
                &&& (i % w > 0 && j == i - 1 && can_connect(px[i], px[j], hint_left[i], lim)) || (i
                    >= w && j == i - w && can_connect(px[i], px[j], hint_up[i], lim))
            },
    decreases k,
{
    let e = grow_edges(px, hint_left, hint_up, w, lim, k);
    if k > 0 {
        grow_edges_are_links(px, hint_left, hint_up, w, lim, k - 1);
        let i0 = k - 1;
        let before = grow_edges(px, hint_left, hint_up, w, lim, i0);
        let takes_left = i0 % w > 0 && can_connect(px[i0], px[i0 - 1], hint_left[i0], lim);
        let takes_up = i0 >= w && can_connect(px[i0], px[i0 - w], hint_up[i0], lim);
        assert(i0 % w > 0 ==> i0 >= 1) by {
            if i0 == 0 {
                assert(0int % w == 0) by (nonlinear_arith)
                    requires
                        w > 0,
                ;
            }
        }
        let left = if takes_left {
            before.push((i0, i0 - 1))
        } else {
            before
        };
        assert forall|i: int, j: int| e.contains((i, j)) <==> (before.contains((i, j)) || (
        takes_left && i == i0 && j == i0 - 1) || (takes_up && i == i0 && j == i0 - w)) by {
            if before.contains((i, j)) {
                let m = choose|m: int| 0 <= m < before.len() && before[m] == (i, j);
                assert(left[m] == (i, j));
                assert(e[m] == (i, j));
            }
            if takes_left && i == i0 && j == i0 - 1 {
                assert(left[before.len() as int] == (i, j));
                assert(e[before.len() as int] == (i, j));
            }
            if takes_up && i == i0 && j == i0 - w {
                assert(e[left.len() as int] == (i, j));
            }
            if e.contains((i, j)) {
                let m = choose|m: int| 0 <= m < e.len() && e[m] == (i, j);
                if m < before.len() {
                    assert(before[m] == (i, j));
                }
            }
        }
        assert forall|m: int| #![trigger e[m]] 0 <= m < e.len() implies 0 <= e[m].0 < k && 0
            <= e[m].1 < k by {
            if m < before.len() {
                assert(e[m] == before[m]);
            }
        }
    }
}

/// Equal neighbours are linked where the limits leave room for them and the hint
/// is below the wall.
pub proof fn equal_colors_connect(a: PixelFeature, hint: Scalar, lim: GrowLimits)
    requires
        lim.strong_sq > 0,
        lim.y_limit > 0,
        lim.chroma_limit > 0,
        hint.lt(lim.edge_wall),
    ensures
        can_connect(a, a, hint, lim),
{
}

/// Neighbours are not linked across a wall, nor where colour, luma or chroma
/// differ by the limit or more.
pub proof fn different_neighbours_are_parted(
    a: PixelFeature,
    b: PixelFeature,
    hint: Scalar,
    lim: GrowLimits,
)
    requires
        ({
            let d = (a.r - b.r) * (a.r - b.r) + (a.g - b.g) * (a.g - b.g) + (a.b - b.b) * (a.b
                - b.b);
            ||| lim.edge_wall.le(hint)
            ||| d > lim.link_sq
            ||| d >= lim.strong_sq
            ||| a.y - b.y >= lim.y_limit
            ||| b.y - a.y >= lim.y_limit
            ||| (a.co - b.co) + (a.cg - b.cg) >= lim.chroma_limit
            ||| (b.co - a.co) + (a.cg - b.cg) >= lim.chroma_limit
            ||| (a.co - b.co) + (b.cg - a.cg) >= lim.chroma_limit
            ||| (b.co - a.co) + (b.cg - a.cg) >= lim.chroma_limit
        }),
    ensures
        !can_connect(a, b, hint, lim),
        !can_connect(b, a, hint, lim),
{
    assert((b.r - a.r) * (b.r - a.r) == (a.r - b.r) * (a.r - b.r)) by (nonlinear_arith);
    assert((b.g - a.g) * (b.g - a.g) == (a.g - b.g) * (a.g - b.g)) by (nonlinear_arith);
    assert((b.b - a.b) * (b.b - a.b) == (a.b - b.b) * (a.b - b.b)) by (nonlinear_arith);
}

/// Neighbours below every limit are linked.
pub proof fn similar_neighbours_connect(
    a: PixelFeature,
    b: PixelFeature,
    hint: Scalar,
    lim: GrowLimits,
)
    requires
        ({
            let d = (a.r - b.r) * (a.r - b.r) + (a.g - b.g) * (a.g - b.g) + (a.b - b.b) * (a.b
                - b.b);
            &&& hint.lt(lim.edge_wall)
            &&& d <= lim.link_sq
            &&& d < lim.strong_sq
            &&& -lim.y_limit < a.y - b.y < lim.y_limit
            &&& (a.co - b.co) + (a.cg - b.cg) < lim.chroma_limit
            &&& (b.co - a.co) + (a.cg - b.cg) < lim.chroma_limit
            &&& (a.co - b.co) + (b.cg - a.cg) < lim.chroma_limit
            &&& (b.co - a.co) + (b.cg - a.cg) < lim.chroma_limit
        }),
    ensures
        can_connect(a, b, hint, lim),
{
}

/// Two pixels lie in one block exactly when a chain of links leads from one to
/// the other.
pub proof fn blocks_are_connected_components(
    px: Seq<PixelFeature>,
    hint_left: Seq<Scalar>,
    hint_up: Seq<Scalar>,
    w: int,
    lim: GrowLimits,
    i: int,
    j: int,
)
    requires
        w > 0,
        0 <= i < px.len(),
        0 <= j < px.len(),
    ensures
        blocks(px, hint_left, hint_up, w, lim)[i] == blocks(px, hint_left, hint_up, w, lim)[j]
            <==> connected(grow_edges(px, hint_left, hint_up, w, lim, px.len() as int), i, j),
{
    grow_edges_are_links(px, hint_left, hint_up, w, lim, px.len() as int);
    join_all_is_connectivity(
        px.len(),
        grow_edges(px, hint_left, hint_up, w, lim, px.len() as int),
        i,
        j,
    );
}

/// Statistics of the pixels under each label below `num_regions`.
pub fn collect_stats(
    px: &[PixelFeature],
    labels: &[Option<usize>],
    num_regions: usize,
    width: u32,
    height: u32,
) -> (stats: Vec<RegionStats>)
    requires
        frame(width, height, px@.len() as int),
        labels@.len() == px@.len(),
        forall|i: int|
            #![trigger labels@[i]]
            0 <= i < labels@.len() && labels@[i] is Some ==> labels@[i]->Some_0 < num_regions,
    ensures
        stats@.len() == num_regions,
        forall|r: int|
            0 <= r < num_regions ==> (#[trigger] stats@[r]).describes(
                r,
                labels@,
                px@,
                width,
                height,
                px@.len() as int,
            ),
{
    let n = px.len();
    let w = width as usize;
    let mut stats: Vec<RegionStats> = Vec::new();
    let mut id: usize = 0;
    while id < num_regions
        invariant
            id <= num_regions,
            stats@.len() == id,
            forall|r: int|
                0 <= r < id ==> (#[trigger] stats@[r]).describes(
                    r,
                    labels@,
                    px@,
                    width,
                    height,
                    0,
                ),
        decreases num_regions - id,
    {
        stats.push(RegionStats::new(id, width, height));
        id += 1;
    }
    let mut idx: usize = 0;
    while idx < n
        invariant
            idx <= n,
            n == px@.len(),
            w == width,
            frame(width, height, n as int),
            labels@.len() == n,
            stats@.len() == num_regions,
            forall|i: int|
                #![trigger labels@[i]]
                0 <= i < n && labels@[i] is Some ==> labels@[i]->Some_0 < num_regions,
            forall|r: int|
                0 <= r < num_regions ==> (#[trigger] stats@[r]).describes(
                    r,
                    labels@,
                    px@,
                    width,
                    height,
                    idx as int,
                ),
        decreases n - idx,
    {
        let ghost before = stats@;
        if let Some(rid) = labels[idx] {
            proof {
                stats_room(before[rid as int], rid as int, labels@, px@, width, height, idx as int);
                pixel_in_frame(width, height, n as int, idx as int);
            }
            stats[rid].add_pixel(idx, w, px[idx]);
        }
        proof {
            assert forall|r: int| 0 <= r < num_regions implies (
            #[trigger] stats@[r]).describes(r, labels@, px@, width, height, idx + 1) by {
                pixel_in_frame(width, height, n as int, idx as int);
                stats_step(before[r], stats@[r], r, labels@, px@, width, height, idx as int);
            }
        }
        idx += 1;
    }
    stats
}

proof fn stats_room(
    s: RegionStats,
    r: int,
    labels: Seq<Option<usize>>,
    px: Seq<PixelFeature>,
    width: u32,
    height: u32,
    k: int,
)
    requires
        frame(width, height, px.len() as int),
        0 <= k < px.len(),
        s.describes(r, labels, px, width, height, k),
    ensures
        s.area <= k,
        s.sum_x + k % (width as int) <= u64::MAX,
        s.sum_y + k / (width as int) <= u64::MAX,
        s.sum_r <= k * 255,
        s.sum_g <= k * 255,
        s.sum_b <= k * 255,
{
    let xs = columns(width as int, px.len());
    let ys = rows(width as int, px.len());
    assert forall|i: int| 0 <= i < k implies 0 <= #[trigger] xs[i] <= u32::MAX by {
        pixel_in_frame(width, height, px.len() as int, i);
    }
    assert forall|i: int| 0 <= i < k implies 0 <= #[trigger] ys[i] <= u32::MAX by {
        pixel_in_frame(width, height, px.len() as int, i);
    }
    pixel_in_frame(width, height, px.len() as int, k);
    total_bounded(labels, xs, r, k, u32::MAX as int);
    total_bounded(labels, ys, r, k, u32::MAX as int);
    total_bounded(labels, reds(px), r, k, 255);
    total_bounded(labels, greens(px), r, k, 255);
    total_bounded(labels, blues(px), r, k, 255);
}

proof fn stats_step(
    s: RegionStats,
    t: RegionStats,
    r: int,
    labels: Seq<Option<usize>>,
    px: Seq<PixelFeature>,
    width: u32,
    height: u32,
    k: int,
)
    requires
        frame(width, height, px.len() as int),
        labels.len() == px.len(),
        0 <= k < px.len(),
        s.describes(r, labels, px, width, height, k),
        !carries(labels, r, k) ==> t == s,
        carries(labels, r, k) ==> {
            let x = k % (width as int);
            let y = k / (width as int);
            &&& t.id == s.id
            &&& t.area == s.area + 1
            &&& t.sum_x == s.sum_x + x
            &&& t.sum_y == s.sum_y + y
            &&& t.sum_r == s.sum_r + px[k].r
            &&& t.sum_g == s.sum_g + px[k].g
            &&& t.sum_b == s.sum_b + px[k].b
            &&& t.min_x == if x < s.min_x { x } else { s.min_x as int }
            &&& t.min_y == if y < s.min_y { y } else { s.min_y as int }
            &&& t.max_x == if x > s.max_x { x } else { s.max_x as int }
            &&& t.max_y == if y > s.max_y { y } else { s.max_y as int }
        },
    ensures
        t.describes(r, labels, px, width, height, k + 1),
{
    let xs = columns(width as int, px.len());
    let ys = rows(width as int, px.len());
    extremes_step(labels, xs, r, k, width as int, s.min_x as int, s.max_x as int);
    extremes_step(labels, ys, r, k, height as int, s.min_y as int, s.max_y as int);
}

proof fn extremes_step(
    labels: Seq<Option<usize>>,
    vals: Seq<int>,
    r: int,
    k: int,
    start: int,
    lo: int,
    hi: int,
)
    requires
        0 <= k < labels.len(),
        least_of(labels, vals, r, k, start, lo),
        greatest_of(labels, vals, r, k, 0, hi),
    ensures
        !carries(labels, r, k) ==> least_of(labels, vals, r, k + 1, start, lo) && greatest_of(
            labels,
            vals,
            r,
            k + 1,
            0,
            hi,
        ),
        carries(labels, r, k) ==> {
            &&& least_of(
                labels,
                vals,
                r,
                k + 1,
                start,
                if vals[k] < lo { vals[k] } else { lo },
            )
            &&& greatest_of(labels, vals, r, k + 1, 0, if vals[k] > hi { vals[k] } else { hi })
        },
{
    let l0 = labels[k];
    if lo != start {
        let i = choose|i: int|
            #![trigger labels[i]]
            0 <= i < k && carries(labels, r, i) && lo == vals[i];
        assert(labels[i] is Some);
    }
    if hi != 0 {
        let i = choose|i: int|
            #![trigger labels[i]]
            0 <= i < k && carries(labels, r, i) && hi == vals[i];
        assert(labels[i] is Some);
    }
}

/// Labels and statistics are those of the blocks, numbered in order of their
/// first pixel.
pub open spec fn grown(
    labels: Seq<Option<usize>>,
    stats: Seq<RegionStats>,
    px: Seq<PixelFeature>,
    hint_left: Seq<Scalar>,
    hint_up: Seq<Scalar>,
    width: u32,
    height: u32,
    lim: GrowLimits,
) -> bool {
    let c = blocks(px, hint_left, hint_up, width as int, lim);
    &&& is_classes(c)
    &&& c.len() == px.len()
    &&& labels.len() == px.len()
    &&& forall|i: int|
        #![trigger labels[i]]
        0 <= i < labels.len() ==> labels[i] is Some && labels[i]->Some_0 == class_number(c, i)
            && labels[i]->Some_0 < stats.len()
    &&& stats.len() == class_count(c)
    &&& forall|q: int|
        #![trigger stats[q]]
        0 <= q < stats.len() ==> stats[q].describes(
            q,
            labels,
            px,
            width,
            height,
            px.len() as int,
        )
}

/// Grows blocks over similar neighbours. `hint_left[i]` and `hint_up[i]` are the
/// edge strengths between pixel `i` and its left and upper neighbour. Blocks are
/// numbered in order of their first pixel, and described.
pub fn grow_regions(
    px: &[PixelFeature],
    hint_left: &[Scalar],
    hint_up: &[Scalar],
    width: u32,
    height: u32,
    lim: &GrowLimits,
) -> (r: (Vec<Option<usize>>, Vec<RegionStats>))
    requires
        frame(width, height, px@.len() as int),
        all_wf(px@),
        hint_left@.len() == px@.len(),
        hint_up@.len() == px@.len(),
    ensures
        grown(r.0@, r.1@, px@, hint_left@, hint_up@, width, height, *lim),
{
    let n = px.len();
    let w = width as usize;
    let mut uf = Uf::new(n);
    let mut idx: usize = 0;
    proof {
        assert(join_all(n as nat, seq![]) == crate::classes::singletons(n as nat));
    }
    while idx < n
        invariant
            idx <= n,
            n == px@.len(),
            w == width,
            frame(width, height, n as int),
            all_wf(px@),
            hint_left@.len() == n,
            hint_up@.len() == n,
            uf.wf(),
            uf@ == join_all(
                n as nat,
                grow_edges(px@, hint_left@, hint_up@, w as int, *lim, idx as int),
            ),
            uf@.len() == n,
        decreases n - idx,
    {
        proof {
            pixel_in_frame(width, height, n as int, idx as int);
        }
        let ghost before = grow_edges(px@, hint_left@, hint_up@, w as int, *lim, idx as int);
        let ghost mut edges = before;
        if idx % w > 0 && can_connect_neighbors(px[idx], px[idx - 1], hint_left[idx], lim) {
            uf.union(idx, idx - 1);
            proof {
                edges = before.push((idx as int, idx - 1));
                assert(edges.drop_last() =~= before);
                assert(uf@ == join_all(n as nat, edges));
            }
        }
        let ghost middle = edges;
        if idx >= w && can_connect_neighbors(px[idx], px[idx - w], hint_up[idx], lim) {
            uf.union(idx, idx - w);
            proof {
                edges = middle.push((idx as int, idx - w));
                assert(edges.drop_last() =~= middle);
                assert(uf@ == join_all(n as nat, edges));
            }
        }
        proof {
            assert(edges == grow_edges(
                px@,
                hint_left@,
                hint_up@,
                w as int,
                *lim,
                idx + 1,
            ));
        }
        idx += 1;
    }
    let (numbers, count) = uf.resolve();
    let ghost c = blocks(px@, hint_left@, hint_up@, width as int, *lim);
    proof {
        if n > 0 {
            pixel_in_frame(width, height, n as int, 0);
            grow_edges_are_links(px@, hint_left@, hint_up@, width as int, *lim, n as int);
        }
        join_all_is_classes(
            n as nat,
            grow_edges(px@, hint_left@, hint_up@, width as int, *lim, n as int),
        );
    }
    let mut labels: Vec<Option<usize>> = Vec::new();
    let mut k: usize = 0;
    while k < n
        invariant
            k <= n,
            n == numbers@.len(),
            labels@.len() == k,
            c.len() == n,
            is_classes(c),
            count == class_count(c),
            forall|i: int| 0 <= i < n ==> #[trigger] numbers@[i] == class_number(c, i),
            forall|i: int|
                #![trigger labels@[i]]
                0 <= i < k ==> labels@[i] is Some && labels@[i]->Some_0 == class_number(c, i)
                    && class_number(c, i) < class_count(c),
        decreases n - k,
    {
        proof {
            class_numbers_dense(c, k as int, k as int);
        }
        labels.push(Some(numbers[k]));
        k += 1;
    }
    let stats = collect_stats(px, &labels, count, width, height);
    (labels, stats)
}

} // verus!
