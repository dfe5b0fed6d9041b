//! Segmentation of an image into colour blocks.

use vstd::prelude::*;
use crate::adjacency::{
    compute_adjacency, is_adjacency, neighbours_are_listed, pair_wf, touches, AdjacentStats,
};
use crate::anime::{
    all_wf, blocks, blues, equal_colors_connect, extract_features, greens, grow_edges,
    grow_edges_are_links, grow_regions, grown, reds, GrowLimits, PixelFeature, RegionStats,
};
use crate::anime_merge::{
    adjacency_within, areas, clear_boundary_stands, live, mean_color, mean_color_is_nearest,
    merge_regions, merged_into, plans, presents, presents_label, soft_boundary_offers_region,
    strong_boundary_keeps_region, weak_boundary_merges, MergeLimits, PairMeasure,
};
use crate::classes::{
    class_count, class_number_attained, class_numbers_dense, edge_ends_share_class, edges_within,
    join, join_all, join_all_is_classes, join_is_classes, leaders_monotone,
};
use crate::edge::{
    convert_pixels, converted, detect_edges_fast, is_fast_edge_map, settles_finite, Around,
};
use crate::merge::{
    classes_hang_together, classes_keep_sides, final_classes, merged_pairs_share_class,
    pairs_within, small_region_finds_company,
};
use crate::region::{
    area_of, area_positive, areas_add_up, areas_sum, carries, columns, frame, labelled,
    pixel_in_frame, rows, total_of, Palette, Region,
};
use crate::scalar::{all_unit, Scalar};

verus! {

/// Complete segmentation of an image.
#[derive(Clone, Debug)]
pub struct SegmentResult {
    /// Final regions.
    pub regions: Vec<Region>,
    /// Region of each pixel.
    pub labels: Vec<Option<usize>>,
    /// Mean colour and pixel count of each region.
    pub palette: Palette,
    /// Edge strength of each pixel.
    pub edge_map: Vec<Scalar>,
    /// Image width in pixels.
    pub width: u32,
    /// Image height in pixels.
    pub height: u32,
}

/// Why an image cannot be segmented.
#[derive(Clone, Copy, Debug, PartialEq, Eq, Structural)]
pub enum SegmentError {
    /// The image has no pixels.
    EmptyImage,
}

impl SegmentError {
    /// The error in words.
    pub fn message(&self) -> (s: &'static str)
        ensures
            s@ == "image must have at least 1 pixel"@,
    {
        "image must have at least 1 pixel"
    }
}

/// The features are those of the pixels.
pub open spec fn features_of(px: Seq<PixelFeature>, pixels: Seq<[u8; 3]>) -> bool {
    &&& px.len() == pixels.len()
    &&& all_wf(px)
    &&& forall|i: int|
        #![trigger px[i]]
        0 <= i < px.len() ==> px[i].r == pixels[i][0] && px[i].g == pixels[i][1] && px[i].b
            == pixels[i][2]
}

/// `left[i]` and `up[i]` are what `hint` gives for the edge strengths of pixel `i`
/// and of its left or upper neighbour, where it has one.
pub open spec fn hinted<H: Fn(Scalar, Scalar) -> Scalar>(
    hint: H,
    edges: Seq<Scalar>,
    left: Seq<Scalar>,
    up: Seq<Scalar>,
    w: int,
    n: int,
) -> bool {
    &&& left.len() == n
    &&& up.len() == n
    &&& forall|i: int|
        #![trigger left[i]]
        0 <= i < n && i % w > 0 ==> call_ensures(hint, (edges[i], edges[i - 1]), left[i])
    &&& forall|i: int|
        #![trigger up[i]]
        0 <= i < n && i >= w ==> call_ensures(hint, (edges[i], edges[i - w]), up[i])
}

/// Two pixels that touch across a boundary, with their edge strengths.
#[derive(Clone, Copy, Debug)]
pub struct Contact {
    pub a: [u8; 3],
    pub b: [u8; 3],
    pub edge_a: Scalar,
    pub edge_b: Scalar,
}

/// The contacts of a pair of regions.
pub open spec fn contacts_of(
    pixels: Seq<[u8; 3]>,
    edges: Seq<Scalar>,
    pair: AdjacentStats,
) -> Seq<Contact> {
    Seq::new(
        pair.samples@.len(),
        |s: int|
            Contact {
                a: pixels[pair.samples@[s].0 as int],
                b: pixels[pair.samples@[s].1 as int],
                edge_a: edges[pair.samples@[s].0 as int],
                edge_b: edges[pair.samples@[s].1 as int],
            },
    )
}

/// Lists the contacts of a pair of regions.
fn list_contacts(
    pixels: &[[u8; 3]],
    edges: &Vec<Scalar>,
    pair: &AdjacentStats,
    Ghost(labels): Ghost<Seq<Option<usize>>>,
    Ghost(w): Ghost<int>,
) -> (list: Vec<Contact>)
    requires
        edges@.len() == pixels@.len(),
        labels.len() == pixels@.len(),
        pair_wf(labels, w, *pair),
    ensures
        list@ == contacts_of(pixels@, edges@, *pair),
{
    let mut list: Vec<Contact> = Vec::new();
    let mut s: usize = 0;
    while s < pair.samples.len()
        invariant
            s <= pair.samples@.len(),
            edges@.len() == pixels@.len(),
            labels.len() == pixels@.len(),
            pair_wf(labels, w, *pair),
            list@ == contacts_of(pixels@, edges@, *pair).take(s as int),
        decreases pair.samples@.len() - s,
    {
        let (i, j) = pair.samples[s];
        assert(touches(labels, w, pair.samples@[s as int].0 as int, pair.samples@[s as int].1 as int));
        list.push(Contact { a: pixels[i], b: pixels[j], edge_a: edges[i], edge_b: edges[j] });
        s += 1;
        assert(list@ =~= contacts_of(pixels@, edges@, *pair).take(s as int));
    }
    assert(list@ =~= contacts_of(pixels@, edges@, *pair));
    list
}

/// `m` is what `measure` gives for the contacts of two regions and their sums.
pub open spec fn measured_as<
    M: Fn(&Vec<Contact>, &RegionStats, &RegionStats) -> PairMeasure,
>(measure: M, contacts: Seq<Contact>, a: RegionStats, b: RegionStats, m: PairMeasure) -> bool {
    exists|list: Vec<Contact>|
        list@ == contacts && #[trigger] call_ensures(measure, (&list, &a, &b), m)
}

/// `measures[k]` is what `measure` gives for pair `k` and its two regions.
pub open spec fn measured<M: Fn(&Vec<Contact>, &RegionStats, &RegionStats) -> PairMeasure>(
    measure: M,
    pixels: Seq<[u8; 3]>,
    edges: Seq<Scalar>,
    pairs: Seq<AdjacentStats>,
    stats: Seq<RegionStats>,
    measures: Seq<PairMeasure>,
) -> bool {
    &&& measures.len() == pairs.len()
    &&& forall|k: int|
        #![trigger measures[k]]
        0 <= k < pairs.len() ==> measured_as(
            measure,
            contacts_of(pixels, edges, pairs[k]),
            stats[pairs[k].a as int],
            stats[pairs[k].b as int],
            measures[k],
        )
}

/// Hints are made of the edge strengths of a pixel and of its left or upper
/// neighbour.
pub proof fn hints_look_at_both_pixels<H: Fn(Scalar, Scalar) -> Scalar>(
    hint: H,
    edges: Seq<Scalar>,
    left: Seq<Scalar>,
    up: Seq<Scalar>,
    w: int,
    n: int,
    x: int,
    y: int,
)
    requires
        hinted(hint, edges, left, up, w, n),
        0 <= x < w,
        0 <= y,
        y * w + x < n,
    ensures
        x > 0 ==> call_ensures(
            hint,
            (edges[y * w + x], edges[y * w + (x - 1)]),
            left[y * w + x],
        ),
        y > 0 ==> call_ensures(
            hint,
            (edges[y * w + x], edges[(y - 1) * w + x]),
            up[y * w + x],
        ),
{
    crate::region::pixel_at(w, x, y);
    let i = y * w + x;
    assert(left[i] == left[i] && up[i] == up[i]);
    assert((y - 1) * w == y * w - w) by (nonlinear_arith);
    if y > 0 {
        assert(i >= w) by (nonlinear_arith)
            requires
                i == y * w + x,
                y >= 1,
                x >= 0,
                w >= 0,
        ;
    }
}

/// The contacts of a pair show both pixels and their own edge strengths, sample by
/// sample.
pub proof fn contacts_show_both_pixels(
    pixels: Seq<[u8; 3]>,
    edges: Seq<Scalar>,
    pair: AdjacentStats,
    s: int,
)
    requires
        0 <= s < pair.samples@.len(),
    ensures
        contacts_of(pixels, edges, pair).len() == pair.samples@.len(),
        ({
            let c = contacts_of(pixels, edges, pair)[s];
            let i = pair.samples@[s].0 as int;
            let j = pair.samples@[s].1 as int;
            c.a == pixels[i] && c.b == pixels[j] && c.edge_a == edges[i] && c.edge_b == edges[j]
        }),
{
}

/// The intermediate results of a segmentation.
pub ghost struct Stages {
    pub px: Seq<PixelFeature>,
    pub hint_left: Seq<Scalar>,
    pub hint_up: Seq<Scalar>,
    pub raw_labels: Seq<Option<usize>>,
    pub raw_regions: Seq<RegionStats>,
    pub pairs: Seq<AdjacentStats>,
    pub measures: Seq<PairMeasure>,
}

/// Growing, measuring and merging lead to the result by way of `st`.
pub open spec fn segmented_by(
    st: Stages,
    r: SegmentResult,
    grow: GrowLimits,
    merge: MergeLimits,
) -> bool {
    &&& grown(
        st.raw_labels,
        st.raw_regions,
        st.px,
        st.hint_left,
        st.hint_up,
        r.width,
        r.height,
        grow,
    )
    &&& is_adjacency(st.raw_labels, r.width as int, st.pairs)
    &&& merged_into(
        r.regions@,
        r.labels@,
        r.palette,
        st.px,
        st.raw_labels,
        st.raw_regions,
        st.pairs,
        st.measures,
        r.width,
        r.height,
        merge,
    )
}

/// The result is the segmentation of the pixels: the hints and the measures come
/// from its own edge map.
pub open spec fn is_segmentation<
    H: Fn(Scalar, Scalar) -> Scalar,
    M: Fn(&Vec<Contact>, &RegionStats, &RegionStats) -> PairMeasure,
>(
    r: SegmentResult,
    pixels: Seq<[u8; 3]>,
    grow: GrowLimits,
    merge: MergeLimits,
    hint: H,
    measure: M,
) -> bool {
    exists|st: Stages|
        {
            &&& #[trigger] segmented_by(st, r, grow, merge)
            &&& features_of(st.px, pixels)
            &&& hinted(
                hint,
                r.edge_map@,
                st.hint_left,
                st.hint_up,
                r.width as int,
                pixels.len() as int,
            )
            &&& measured(
                measure,
                pixels,
                r.edge_map@,
                st.pairs,
                st.raw_regions,
                st.measures,
            )
        }
}

/// The edge map is the fast one of the converted pixels.
pub open spec fn edges_of_image<
    L,
    C: Fn([u8; 3]) -> L,
    G: Fn(Around<L>) -> Scalar,
    V: Fn(Scalar, Scalar) -> Scalar,
>(
    convert: C,
    gradient: G,
    curve: V,
    pixels: Seq<[u8; 3]>,
    w: u32,
    h: u32,
    map: Seq<Scalar>,
) -> bool {
    exists|colors: Seq<L>| #[trigger]
        converted(convert, pixels, colors) && is_fast_edge_map(gradient, curve, colors, w, h, map)
}

/// Every pixel has a region, every region has pixels, and regions and palette
/// are numbered as the labels are.
pub open spec fn result_wf(r: SegmentResult, n: int) -> bool {
    &&& r.labels@.len() == n
    &&& r.edge_map@.len() == n
    &&& r.palette.colors@.len() == r.regions@.len()
    &&& r.palette.counts@.len() == r.regions@.len()
    &&& forall|i: int|
        #![trigger r.labels@[i]]
        0 <= i < n ==> r.labels@[i] is Some && r.labels@[i]->Some_0 < r.regions@.len()
    &&& forall|q: int|
        #![trigger r.regions@[q]]
        0 <= q < r.regions@.len() ==> {
            &&& r.regions@[q].id == q
            &&& r.regions@[q].cluster_id == q
            &&& r.regions@[q].area == area_of(r.labels@, q, n)
            &&& r.regions@[q].pixel_count == r.regions@[q].area
            &&& r.palette.counts@[q] == r.regions@[q].area
            &&& r.regions@[q].area > 0
        }
    &&& n > 0 ==> r.regions@.len() > 0
}

/// Segments an image.
///
/// `convert` turns a pixel into a colour, of which `gradient` and `curve` make the
/// edge map; `hint` takes the edge strengths of two neighbouring pixels, and
/// `measure` evaluates the boundary of two touching regions.
pub fn segment<
    L: Copy,
    C: Fn([u8; 3]) -> L,
    G: Fn(Around<L>) -> Scalar,
    V: Fn(Scalar, Scalar) -> Scalar,
    H: Fn(Scalar, Scalar) -> Scalar,
    M: Fn(&Vec<Contact>, &RegionStats, &RegionStats) -> PairMeasure,
>(
    pixels: &[[u8; 3]],
    width: u32,
    height: u32,
    grow: &GrowLimits,
    merge: &MergeLimits,
    convert: &C,
    gradient: &G,
    curve: &V,
    hint: &H,
    measure: &M,
) -> (r: Result<SegmentResult, SegmentError>)
    requires
        frame(width, height, pixels@.len() as int),
        forall|p: [u8; 3]| #[trigger] call_requires(*convert, (p,)),
        forall|a: Around<L>| #[trigger] call_requires(*gradient, (a,)),
        forall|m: Scalar, v: Scalar| #[trigger] call_requires(*curve, (m, v)),
        forall|a: Scalar, b: Scalar| #[trigger] call_requires(*hint, (a, b)),
        forall|c: &Vec<Contact>, a: &RegionStats, b: &RegionStats| #[trigger]
            call_requires(*measure, (c, a, b)),
    ensures
        r is Err <==> pixels@.len() == 0,
        r is Ok ==> {
            &&& r->Ok_0.width == width
            &&& r->Ok_0.height == height
            &&& edges_of_image(
                *convert,
                *gradient,
                *curve,
                pixels@,
                width,
                height,
                r->Ok_0.edge_map@,
            )
            &&& settles_finite(*gradient, *curve) ==> all_unit(r->Ok_0.edge_map@)
            &&& is_segmentation(r->Ok_0, pixels@, *grow, *merge, *hint, *measure)
            &&& result_wf(r->Ok_0, pixels@.len() as int)
            &&& r->Ok_0.labels@.len() == r->Ok_0.edge_map@.len() == width * height
        },
{
    segment_anime_blocks(
        pixels,
        width,
        height,
        grow,
        merge,
        convert,
        gradient,
        curve,
        hint,
        measure,
    )
}

/// Segments an image by detecting edges and by growing, merging and absorbing
/// colour blocks.
pub fn segment_anime_blocks<
    L: Copy,
    C: Fn([u8; 3]) -> L,
    G: Fn(Around<L>) -> Scalar,
    V: Fn(Scalar, Scalar) -> Scalar,
    H: Fn(Scalar, Scalar) -> Scalar,
    M: Fn(&Vec<Contact>, &RegionStats, &RegionStats) -> PairMeasure,
>(
    pixels: &[[u8; 3]],
    width: u32,
    height: u32,
    grow: &GrowLimits,
    merge: &MergeLimits,
    convert: &C,
    gradient: &G,
    curve: &V,
    hint: &H,
    measure: &M,
) -> (r: Result<SegmentResult, SegmentError>)
    requires
        frame(width, height, pixels@.len() as int),
        forall|p: [u8; 3]| #[trigger] call_requires(*convert, (p,)),
        forall|a: Around<L>| #[trigger] call_requires(*gradient, (a,)),
        forall|m: Scalar, v: Scalar| #[trigger] call_requires(*curve, (m, v)),
        forall|a: Scalar, b: Scalar| #[trigger] call_requires(*hint, (a, b)),
        forall|c: &Vec<Contact>, a: &RegionStats, b: &RegionStats| #[trigger]
            call_requires(*measure, (c, a, b)),
    ensures
        r is Err <==> pixels@.len() == 0,
        r is Ok ==> {
            &&& r->Ok_0.width == width
            &&& r->Ok_0.height == height
            &&& edges_of_image(
                *convert,
                *gradient,
                *curve,
                pixels@,
                width,
                height,
                r->Ok_0.edge_map@,
            )
            &&& settles_finite(*gradient, *curve) ==> all_unit(r->Ok_0.edge_map@)
            &&& is_segmentation(r->Ok_0, pixels@, *grow, *merge, *hint, *measure)
            &&& result_wf(r->Ok_0, pixels@.len() as int)
            &&& r->Ok_0.labels@.len() == r->Ok_0.edge_map@.len() == width * height
        },
{
    let n = pixels.len();
    if n == 0 {
        return Err(SegmentError::EmptyImage);
    }
    let w = width as usize;
    let px = extract_features(pixels);
    let colors = convert_pixels(pixels, convert);
    let edge_map = detect_edges_fast(colors.as_slice(), width, height, gradient, curve);
    let mut hint_left: Vec<Scalar> = Vec::new();
    let mut hint_up: Vec<Scalar> = Vec::new();
    let mut i: usize = 0;
    while i < n
        invariant
            i <= n,
            n == pixels@.len(),
            n == edge_map@.len(),
            w == width,
            frame(width, height, n as int),
            forall|a: Scalar, b: Scalar| #[trigger] call_requires(*hint, (a, b)),
            hinted(*hint, edge_map@, hint_left@, hint_up@, w as int, i as int),
        decreases n - i,
    {
        proof {
            pixel_in_frame(width, height, n as int, i as int);
        }
        let left = if i % w > 0 {
            assert(call_requires(*hint, (edge_map@[i as int], edge_map@[i - 1])));
            hint(edge_map[i], edge_map[i - 1])
        } else {
            Scalar::zero()
        };
        let up = if i >= w {
            assert(call_requires(*hint, (edge_map@[i as int], edge_map@[i - w])));
            hint(edge_map[i], edge_map[i - w])
        } else {
            Scalar::zero()
        };
        hint_left.push(left);
        hint_up.push(up);
        i += 1;
    }
    let (raw_labels, raw_regions) = grow_regions(&px, &hint_left, &hint_up, width, height, grow);
    proof {
        leaders_monotone(
            blocks(px@, hint_left@, hint_up@, width as int, *grow),
            0,
            n as int,
        );
    }
    let pairs = compute_adjacency(&raw_labels, width, height);
    proof {
        adjacency_within(raw_labels@, width as int, pairs@, raw_regions@.len() as int);
    }
    let mut measures: Vec<PairMeasure> = Vec::new();
    let mut k: usize = 0;
    while k < pairs.len()
        invariant
            k <= pairs@.len(),
            pixels@.len() == edge_map@.len(),
            pixels@.len() == raw_labels@.len(),
            is_adjacency(raw_labels@, width as int, pairs@),
            pairs_within(pairs@, raw_regions@.len() as int),
            forall|c: &Vec<Contact>, a: &RegionStats, b: &RegionStats| #[trigger]
                call_requires(*measure, (c, a, b)),
            measures@.len() == k,
            forall|m: int|
                #![trigger measures@[m]]
                0 <= m < k ==> measured_as(
                    *measure,
                    contacts_of(pixels@, edge_map@, pairs@[m]),
                    raw_regions@[pairs@[m].a as int],
                    raw_regions@[pairs@[m].b as int],
                    measures@[m],
                ),
        decreases pairs@.len() - k,
    {
        assert(pairs@[k as int].a < raw_regions@.len() && pairs@[k as int].b < raw_regions@.len());
        let p = &pairs[k];
        let contacts = list_contacts(pixels, &edge_map, p, Ghost(raw_labels@), Ghost(width as int));
        let a = &raw_regions[p.a];
        let b = &raw_regions[p.b];
        assert(call_requires(*measure, (&contacts, a, b)));
        let m = measure(&contacts, a, b);
        assert(call_ensures(*measure, (&contacts, a, b), m));
        assert(measured_as(*measure, contacts_of(pixels@, edge_map@, *p), *a, *b, m));
        measures.push(m);
        k += 1;
    }
    let (regions, labels, palette) = merge_regions(
        &px,
        &raw_labels,
        &raw_regions,
        &pairs,
        &measures,
        width,
        height,
        merge,
    );
    let result = SegmentResult { regions, labels, palette, edge_map, width, height };
    proof {
        let st = Stages {
            px: px@,
            hint_left: hint_left@,
            hint_up: hint_up@,
            raw_labels: raw_labels@,
            raw_regions: raw_regions@,
            pairs: pairs@,
            measures: measures@,
        };
        assert(segmented_by(st, result, *grow, *merge));
        segmentation_wf(st, result, *grow, *merge);
    }
    Ok(result)
}

/// All labels below `m` in use: `live` lists them all.
proof fn live_is_everything(labels: Seq<Option<usize>>, m: int)
    requires
        0 <= m,
        forall|r: int| 0 <= r < m ==> #[trigger] area_of(labels, r, labels.len() as int) > 0,
    ensures
        live(labels, m) == Seq::new(m as nat, |i: int| i),
    decreases m,
{
    if m > 0 {
        live_is_everything(labels, m - 1);
        assert(live(labels, m) =~= Seq::new(m as nat, |i: int| i));
    } else {
        assert(live(labels, m) =~= Seq::new(m as nat, |i: int| i));
    }
}

/// Region, colour and count number `q` of a segmentation present the label `q`.
proof fn segmentation_labels_live(
    st: Stages,
    r: SegmentResult,
    grow: GrowLimits,
    merge: MergeLimits,
    q: int,
)
    requires
        segmented_by(st, r, grow, merge),
        0 <= q < r.regions@.len(),
    ensures
        presents_label(
            r.regions@[q],
            r.palette.colors@[q],
            r.palette.counts@[q],
            q,
            q,
            r.labels@,
            st.px,
            r.width,
            r.height,
        ),
{
    let b = blocks(st.px, st.hint_left, st.hint_up, r.width as int, grow);
    let c = final_classes(
        areas(st.raw_regions),
        st.pairs,
        plans(st.pairs, st.raw_regions, st.measures, merge),
        merge.merge_small_regions,
        merge.min_area(),
    );
    let m = class_count(c) as int;
    let labels = r.labels@;
    assert forall|q: int| 0 <= q < m implies #[trigger] area_of(labels, q, labels.len() as int)
        > 0 by {
        let old = class_number_attained(c, q as nat);
        let i = class_number_attained(b, old as nat);
        assert(st.raw_labels[i] is Some && st.raw_labels[i]->Some_0 == old);
        assert(labels[i] is Some && labels[i]->Some_0 == q);
        area_positive(labels, q, labels.len() as int);
    }
    live_is_everything(labels, m);
    assert(r.regions@[q] == r.regions@[q]);
}

/// In a segmentation of an image every pixel has a region and every region has
/// pixels.
pub proof fn segmentation_wf(st: Stages, r: SegmentResult, grow: GrowLimits, merge: MergeLimits)
    requires
        segmented_by(st, r, grow, merge),
        r.edge_map@.len() == st.px.len(),
    ensures
        result_wf(r, st.px.len() as int),
{
    let n = st.px.len() as int;
    let b = blocks(st.px, st.hint_left, st.hint_up, r.width as int, grow);
    let c = final_classes(
        areas(st.raw_regions),
        st.pairs,
        plans(st.pairs, st.raw_regions, st.measures, merge),
        merge.merge_small_regions,
        merge.min_area(),
    );
    let m = class_count(c) as int;
    let labels = r.labels@;
    assert forall|q: int| 0 <= q < m implies #[trigger] area_of(labels, q, labels.len() as int)
        > 0 by {
        let old = class_number_attained(c, q as nat);
        let i = class_number_attained(b, old as nat);
        assert(st.raw_labels[i] is Some && st.raw_labels[i]->Some_0 == old);
        assert(labels[i] is Some && labels[i]->Some_0 == q);
        area_positive(labels, q, labels.len() as int);
    }
    live_is_everything(labels, m);
    assert forall|i: int| #![trigger labels[i]] 0 <= i < n implies labels[i] is Some
        && labels[i]->Some_0 < r.regions@.len() by {
        assert(st.raw_labels[i] is Some);
    }
    assert forall|q: int| #![trigger r.regions@[q]] 0 <= q < r.regions@.len() implies {
        &&& r.regions@[q].id == q
        &&& r.regions@[q].cluster_id == q
        &&& r.regions@[q].area == area_of(r.labels@, q, n)
        &&& r.regions@[q].pixel_count == r.regions@[q].area
        &&& r.palette.counts@[q] == r.regions@[q].area
        &&& r.regions@[q].area > 0
    } by {
        assert(presents_label(
            r.regions@[q],
            r.palette.colors@[q],
            r.palette.counts@[q],
            q,
            live(labels, m)[q],
            labels,
            st.px,
            r.width,
            r.height,
        ));
    }
    if n > 0 {
        assert(labels[0] is Some);
    }
}

/// A boundary between two regions stands: it is too strong to merge over, and
/// neither region, where it is small at all, is tiny enough to be taken across.
pub open spec fn boundary_stands(m: PairMeasure, a: int, b: int, lim: MergeLimits) -> bool {
    &&& lim.edge_merge.lt(m.edge)
    &&& lim.color_merge.lt(m.color) || lim.edge_guard.le(m.edge)
    &&& lim.edge_split.le(m.edge)
    &&& lim.small_color.lt(m.region_color)
    &&& 4 * a > lim.min_region_area && 4 * a > lim.ratio_area && a > 2
    &&& 4 * b > lim.min_region_area && 4 * b > lim.ratio_area && b > 2
}

/// A grown region all of whose boundaries stand keeps a label of its own: no pixel
/// outside of it carries the label of its pixels.
pub proof fn walled_region_keeps_its_label(
    st: Stages,
    r: SegmentResult,
    grow: GrowLimits,
    merge: MergeLimits,
    q: usize,
    i: int,
    j: int,
)
    requires
        segmented_by(st, r, grow, merge),
        st.px.len() <= u32::MAX,
        0 <= i < st.px.len(),
        0 <= j < st.px.len(),
        st.raw_labels[i] == Some(q),
        st.raw_labels[j] != Some(q),
        forall|k: int|
            #![trigger st.pairs[k]]
            0 <= k < st.pairs.len() && (st.pairs[k].a == q || st.pairs[k].b == q)
                ==> boundary_stands(
                st.measures[k],
                st.raw_regions[st.pairs[k].a as int].area as int,
                st.raw_regions[st.pairs[k].b as int].area as int,
                merge,
            ),
    ensures
        r.labels@[i] != r.labels@[j],
{
    let pairs = st.pairs;
    let sizes = areas(st.raw_regions);
    let plan = plans(pairs, st.raw_regions, st.measures, merge);
    let absorb = merge.merge_small_regions;
    let least = merge.min_area();
    let c = final_classes(sizes, pairs, plan, absorb, least);
    let side = |x: int| x == q;
    grown_in_range(st, r, grow, merge);
    adjacency_within(st.raw_labels, r.width as int, pairs, st.raw_regions.len() as int);
    assert forall|k: int|
        #![trigger pairs[k]]
        0 <= k < pairs.len() && side(pairs[k].a as int) != side(pairs[k].b as int) implies {
        &&& !plan[k].merge
        &&& absorb && sizes[pairs[k].a as int] < least ==> !plan[k].a_into_b.allowed
        &&& absorb && sizes[pairs[k].b as int] < least ==> !plan[k].b_into_a.allowed
    } by {
        let a = st.raw_regions[pairs[k].a as int].area as int;
        let b = st.raw_regions[pairs[k].b as int].area as int;
        assert(boundary_stands(st.measures[k], a, b, merge));
        strong_boundary_keeps_region(merge, a, b, st.measures[k]);
        strong_boundary_keeps_region(merge, b, a, st.measures[k]);
        clear_boundary_stands(merge, a, b, st.measures[k]);
    }
    let s = st.raw_labels[j]->Some_0 as int;
    assert(st.raw_labels[j] is Some);
    classes_keep_sides(sizes, pairs, plan, absorb, least, side, q as int, s);
    class_numbers_dense(c, q as int, s);
    assert(r.labels@[i] is Some && r.labels@[j] is Some);
}

/// Grown labels name grown regions, of which there are no more than pixels.
proof fn grown_in_range(st: Stages, r: SegmentResult, grow: GrowLimits, merge: MergeLimits)
    requires
        segmented_by(st, r, grow, merge),
    ensures
        st.raw_regions.len() <= st.px.len(),
        st.raw_labels.len() == st.px.len(),
        forall|i: int|
            #![trigger st.raw_labels[i]]
            0 <= i < st.raw_labels.len() ==> st.raw_labels[i] is Some && st.raw_labels[i]->Some_0
                < st.raw_regions.len(),
{
    let b = blocks(st.px, st.hint_left, st.hint_up, r.width as int, grow);
    leaders_monotone(b, 0, b.len() as int);
}

/// Two grown regions with a weak boundary, or with close colours and a boundary
/// below the guard, have one label.
pub proof fn weak_boundary_melts(
    st: Stages,
    r: SegmentResult,
    grow: GrowLimits,
    merge: MergeLimits,
    k: int,
    i: int,
    j: int,
)
    requires
        segmented_by(st, r, grow, merge),
        st.px.len() <= u32::MAX,
        0 <= k < st.pairs.len(),
        st.measures[k].edge.le(merge.edge_merge) || (st.measures[k].color.le(merge.color_merge)
            && st.measures[k].edge.lt(merge.edge_guard)),
        0 <= i < st.px.len(),
        0 <= j < st.px.len(),
        st.raw_labels[i] == Some(st.pairs[k].a),
        st.raw_labels[j] == Some(st.pairs[k].b),
    ensures
        r.labels@[i] == r.labels@[j],
{
    let pairs = st.pairs;
    let sizes = areas(st.raw_regions);
    let plan = plans(pairs, st.raw_regions, st.measures, merge);
    grown_in_range(st, r, grow, merge);
    adjacency_within(st.raw_labels, r.width as int, pairs, st.raw_regions.len() as int);
    let p = pairs[k];
    weak_boundary_merges(
        merge,
        st.raw_regions[p.a as int].area as int,
        st.raw_regions[p.b as int].area as int,
        st.measures[k],
    );
    merged_pairs_share_class(
        sizes,
        pairs,
        plan,
        merge.merge_small_regions,
        merge.min_area(),
        k,
    );
    assert(r.labels@[i] is Some && r.labels@[j] is Some);
}

/// A grown region below a least area that has a soft boundary is absorbed: its
/// label is carried by pixels of another grown region too.
pub proof fn small_region_is_absorbed(
    st: Stages,
    r: SegmentResult,
    grow: GrowLimits,
    merge: MergeLimits,
    k: int,
    q: usize,
    i: int,
) -> (j: int)
    requires
        segmented_by(st, r, grow, merge),
        st.px.len() <= u32::MAX,
        merge.merge_small_regions,
        0 <= k < st.pairs.len(),
        st.pairs[k].a == q || st.pairs[k].b == q,
        0 <= i < st.px.len(),
        st.raw_labels[i] == Some(q),
        ({
            let area = st.raw_regions[q as int].area;
            let m = st.measures[k];
            &&& area < merge.min_region_area || area < merge.ratio_area
            &&& m.edge.lt(merge.edge_split) || m.region_color.le(merge.small_color) || area <= 2
                || 4 * area <= merge.min_region_area || 4 * area <= merge.ratio_area
        }),
    ensures
        0 <= j < st.px.len(),
        st.raw_labels[j] != st.raw_labels[i],
        r.labels@[j] == r.labels@[i],
{
    let pairs = st.pairs;
    let sizes = areas(st.raw_regions);
    let plan = plans(pairs, st.raw_regions, st.measures, merge);
    grown_in_range(st, r, grow, merge);
    adjacency_within(st.raw_labels, r.width as int, pairs, st.raw_regions.len() as int);
    let p = pairs[k];
    let a = st.raw_regions[p.a as int].area as int;
    let b = st.raw_regions[p.b as int].area as int;
    assert(st.raw_labels[i] is Some);
    if p.a == q {
        soft_boundary_offers_region(merge, a, b, st.measures[k]);
    } else {
        soft_boundary_offers_region(merge, b, a, st.measures[k]);
    }
    let other = small_region_finds_company(sizes, pairs, plan, merge.min_area(), k, q as int);
    let blocks = blocks(st.px, st.hint_left, st.hint_up, r.width as int, grow);
    let j = class_number_attained(blocks, other as nat);
    assert(st.raw_labels[j] is Some && st.raw_labels[j]->Some_0 == other);
    assert(r.labels@[i] is Some && r.labels@[j] is Some);
    j
}

/// Pixels that grew together stay together.
proof fn grown_pixels_share_label(
    st: Stages,
    r: SegmentResult,
    grow: GrowLimits,
    merge: MergeLimits,
    i: int,
    j: int,
)
    requires
        segmented_by(st, r, grow, merge),
        0 <= i < st.px.len(),
        0 <= j < st.px.len(),
        st.raw_labels[i] == st.raw_labels[j],
    ensures
        r.labels@[i] == r.labels@[j],
{
    assert(st.raw_labels[i] is Some);
    assert(r.labels@[i] is Some && r.labels@[j] is Some);
}

/// Every region is connected: what is the same for every two neighbouring pixels
/// of one label is the same for all pixels of that label.
pub proof fn regions_are_connected(
    st: Stages,
    r: SegmentResult,
    grow: GrowLimits,
    merge: MergeLimits,
    side: spec_fn(int) -> bool,
    i: int,
    j: int,
)
    requires
        segmented_by(st, r, grow, merge),
        frame(r.width, r.height, st.px.len() as int),
        forall|x: int, y: int|
            #![trigger side(x), side(y)]
            0 <= x < st.px.len() && 0 <= y < st.px.len() && r.labels@[x] == r.labels@[y] && ((y == x
                + 1 && y % (r.width as int) != 0) || y == x + r.width) ==> side(x) == side(y),
        0 <= i < st.px.len(),
        0 <= j < st.px.len(),
        r.labels@[i] == r.labels@[j],
    ensures
        side(i) == side(j),
{
    let w = r.width as int;
    let n = st.px.len() as int;
    let pairs = st.pairs;
    let sizes = areas(st.raw_regions);
    let plan = plans(pairs, st.raw_regions, st.measures, merge);
    let absorb = merge.merge_small_regions;
    let least = merge.min_area();
    let c = final_classes(sizes, pairs, plan, absorb, least);
    let b = blocks(st.px, st.hint_left, st.hint_up, w, grow);
    let edges = grow_edges(st.px, st.hint_left, st.hint_up, w, grow, n);
    grown_in_range(st, r, grow, merge);
    adjacency_within(st.raw_labels, w, pairs, st.raw_regions.len() as int);
    pixel_in_frame(r.width, r.height, n, i);
    grow_edges_are_links(st.px, st.hint_left, st.hint_up, w, grow, n);
    assert forall|k: int| #![trigger edges[k]] 0 <= k < edges.len() implies side(edges[k].0)
        == side(edges[k].1) by {
        let (x, y) = edges[k];
        assert(edges[k] == (x, y));
        assert(edges.contains((x, y)));
        edge_ends_share_class(st.px.len(), edges, k);
        assert(b[x] == b[y]);
        assert(st.raw_labels[x] is Some && st.raw_labels[y] is Some);
        grown_pixels_share_label(st, r, grow, merge, x, y);
        assert(side(y) == side(x));
    }
    assert forall|x: int, y: int|
        #![trigger st.raw_labels[x], st.raw_labels[y]]
        0 <= x < n && 0 <= y < n && st.raw_labels[x] == st.raw_labels[y] implies side(x) == side(
        y,
    ) by {
        assert(st.raw_labels[x] is Some && st.raw_labels[y] is Some);
        class_numbers_dense(b, x, y);
        joined_keep_sides(st.px.len(), edges, side, x, y);
    }
    let first = |q: int| choose|x: int| 0 <= x < n && st.raw_labels[x] == Some(q as usize);
    let region_side = |q: int| side(first(q));
    assert forall|x: int| #![trigger st.raw_labels[x]] 0 <= x < n implies region_side(
        st.raw_labels[x]->Some_0 as int,
    ) == side(x) by {
        assert(st.raw_labels[x] is Some);
        let q = st.raw_labels[x]->Some_0 as int;
        assert(st.raw_labels[x] == Some(q as usize));
        let z = first(q);
        assert(st.raw_labels[z] == Some(q as usize));
    }
    assert forall|k: int|
        #![trigger pairs[k]]
        0 <= k < pairs.len() && c[pairs[k].a as int] == c[pairs[k].b as int] implies region_side(
        pairs[k].a as int,
    ) == region_side(pairs[k].b as int) by {
        assert(pair_wf(st.raw_labels, w, pairs[k]));
        let (x, y) = pairs[k].samples@[0];
        assert(touches(st.raw_labels, w, x as int, y as int));
        assert(st.raw_labels[x as int] is Some && st.raw_labels[y as int] is Some);
        assert(r.labels@[x as int] is Some && r.labels@[y as int] is Some);
        assert(r.labels@[x as int] == r.labels@[y as int]);
        assert(side(x as int) == side(y as int));
    }
    let qi = st.raw_labels[i]->Some_0 as int;
    let qj = st.raw_labels[j]->Some_0 as int;
    assert(st.raw_labels[i] is Some && st.raw_labels[j] is Some);
    assert(r.labels@[i] is Some && r.labels@[j] is Some);
    class_numbers_dense(c, qi, qj);
    classes_hang_together(sizes, pairs, plan, absorb, least, region_side, qi, qj);
}

proof fn joined_keep_sides(
    n: nat,
    edges: Seq<(int, int)>,
    side: spec_fn(int) -> bool,
    i: int,
    j: int,
)
    requires
        edges_within(n, edges),
        forall|k: int|
            #![trigger edges[k]]
            0 <= k < edges.len() ==> side(edges[k].0) == side(edges[k].1),
        0 <= i < n,
        0 <= j < n,
        join_all(n, edges)[i] == join_all(n, edges)[j],
    ensures
        side(i) == side(j),
    decreases edges.len(),
{
    if edges.len() > 0 {
        let rest = edges.drop_last();
        let e = edges.last();
        assert(edges[edges.len() - 1] == e);
        assert forall|k: int| #![trigger rest[k]] 0 <= k < rest.len() implies 0 <= rest[k].0 < n && 0
            <= rest[k].1 < n && side(rest[k].0) == side(rest[k].1) by {
            assert(rest[k] == edges[k]);
        }
        join_all_is_classes(n, rest);
        let c = join_all(n, rest);
        join_is_classes(c, e.0, e.1);
        let d = join(c, e.0, e.1);
        assert(d[i] == d[j]);
        if c[i] == c[j] {
            joined_keep_sides(n, rest, side, i, j);
        } else if c[i] == c[e.0] && c[j] == c[e.1] {
            joined_keep_sides(n, rest, side, i, e.0);
            joined_keep_sides(n, rest, side, e.1, j);
        } else {
            joined_keep_sides(n, rest, side, i, e.1);
            joined_keep_sides(n, rest, side, e.0, j);
        }
    }
}

/// Two neighbouring pixels of one colour have one label where the limits leave
/// room for equal colours and the hint between them is below the wall.
pub proof fn equal_neighbours_share_label(
    st: Stages,
    r: SegmentResult,
    grow: GrowLimits,
    merge: MergeLimits,
    i: int,
    j: int,
)
    requires
        segmented_by(st, r, grow, merge),
        frame(r.width, r.height, st.px.len() as int),
        grow.strong_sq > 0,
        grow.y_limit > 0,
        grow.chroma_limit > 0,
        0 <= j < i < st.px.len(),
        st.px[i] == st.px[j],
        (j == i - 1 && i % (r.width as int) != 0 && st.hint_left[i].lt(grow.edge_wall)) || (j == i
            - r.width && st.hint_up[i].lt(grow.edge_wall)),
    ensures
        r.labels@[i] == r.labels@[j],
{
    let w = r.width as int;
    let n = st.px.len() as int;
    let b = blocks(st.px, st.hint_left, st.hint_up, w, grow);
    let edges = grow_edges(st.px, st.hint_left, st.hint_up, w, grow, n);
    pixel_in_frame(r.width, r.height, n, i);
    grow_edges_are_links(st.px, st.hint_left, st.hint_up, w, grow, n);
    equal_colors_connect(
        st.px[i],
        if j == i - 1 && i % w != 0 && st.hint_left[i].lt(grow.edge_wall) {
            st.hint_left[i]
        } else {
            st.hint_up[i]
        },
        grow,
    );
    assert(edges.contains((i, j)));
    let k = choose|k: int| 0 <= k < edges.len() && edges[k] == (i, j);
    edge_ends_share_class(st.px.len(), edges, k);
    assert(b[i] == b[j]);
    assert(st.raw_labels[i] is Some && st.raw_labels[j] is Some);
    grown_pixels_share_label(st, r, grow, merge, i, j);
}

/// A region's box holds all its pixels and is touched by them on all four sides,
/// its sums are those of its pixels' places, and its colour is the nearest to the
/// mean of its pixels.
pub proof fn regions_describe_their_pixels(
    st: Stages,
    r: SegmentResult,
    grow: GrowLimits,
    merge: MergeLimits,
    q: int,
)
    requires
        segmented_by(st, r, grow, merge),
        frame(r.width, r.height, st.px.len() as int),
        0 <= q < r.regions@.len(),
    ensures
        ({
            let n = st.px.len() as int;
            let w = r.width as int;
            let box4 = r.regions@[q].bbox;
            let area = r.regions@[q].area as int;
            let color = r.palette.colors@[q];
            &&& forall|i: int|
                #![trigger r.labels@[i]]
                0 <= i < n && r.labels@[i] == Some(q as usize) ==> box4.0 <= i % w <= box4.2
                    && box4.1 <= i / w <= box4.3
            &&& exists|i: int|
                #![trigger r.labels@[i]]
                0 <= i < n && r.labels@[i] == Some(q as usize) && i % w == box4.0
            &&& exists|i: int|
                #![trigger r.labels@[i]]
                0 <= i < n && r.labels@[i] == Some(q as usize) && i / w == box4.1
            &&& exists|i: int|
                #![trigger r.labels@[i]]
                0 <= i < n && r.labels@[i] == Some(q as usize) && i % w == box4.2
            &&& exists|i: int|
                #![trigger r.labels@[i]]
                0 <= i < n && r.labels@[i] == Some(q as usize) && i / w == box4.3
            &&& r.regions@[q].sum_x == total_of(
                r.labels@,
                Seq::new(st.px.len(), |i: int| i % w),
                q,
                n,
            )
            &&& r.regions@[q].sum_y == total_of(
                r.labels@,
                Seq::new(st.px.len(), |i: int| i / w),
                q,
                n,
            )
            &&& -area <= 2 * (color[0] * area - total_of(
                r.labels@,
                Seq::new(st.px.len(), |i: int| st.px[i].r as int),
                q,
                n,
            )) <= area
            &&& -area <= 2 * (color[1] * area - total_of(
                r.labels@,
                Seq::new(st.px.len(), |i: int| st.px[i].g as int),
                q,
                n,
            )) <= area
            &&& -area <= 2 * (color[2] * area - total_of(
                r.labels@,
                Seq::new(st.px.len(), |i: int| st.px[i].b as int),
                q,
                n,
            )) <= area
        }),
{
    let n = st.px.len() as int;
    let w = r.width as int;
    let labels = r.labels@;
    let xs = Seq::new(st.px.len(), |i: int| i % w);
    let ys = Seq::new(st.px.len(), |i: int| i / w);
    assert(columns(w, st.px.len()) =~= xs);
    assert(rows(w, st.px.len()) =~= ys);
    assert(reds(st.px) =~= Seq::new(st.px.len(), |i: int| st.px[i].r as int));
    assert(greens(st.px) =~= Seq::new(st.px.len(), |i: int| st.px[i].g as int));
    assert(blues(st.px) =~= Seq::new(st.px.len(), |i: int| st.px[i].b as int));
    segmentation_labels_live(st, r, grow, merge, q);
    let s = choose|s: RegionStats|
        {
            &&& #[trigger] s.describes(q, labels, st.px, r.width, r.height, n)
            &&& s.area > 0
            &&& presents(r.regions@[q], q, s)
            &&& mean_color(r.palette.colors@[q], s)
            &&& r.palette.counts@[q] == s.area
        };
    mean_color_is_nearest(r.palette.colors@[q], s);
    let one = labelled_pixel(labels, q, n);
    pixel_in_frame(r.width, r.height, n, one);
    assert(carries(labels, q, one));
    assert(labels[one] == labels[one]);
    assert forall|i: int| #![trigger labels[i]] 0 <= i < n && labels[i] == Some(
        q as usize,
    ) implies carries(labels, q, i) && xs[i] == i % w && ys[i] == i / w by {}
    assert(s.min_x < r.width);
    assert(s.min_y < r.height);
    let a = choose|i: int|
        #![trigger labels[i]]
        0 <= i < n && carries(labels, q, i) && s.min_x == xs[i];
    assert(labels[a] == Some(q as usize));
    let b = choose|i: int|
        #![trigger labels[i]]
        0 <= i < n && carries(labels, q, i) && s.min_y == ys[i];
    assert(labels[b] == Some(q as usize));
    if s.max_x == 0 {
        assert(xs[one] == 0);
        assert(labels[one] == Some(q as usize) && one % w == s.max_x);
    } else {
        let c = choose|i: int|
            #![trigger labels[i]]
            0 <= i < n && carries(labels, q, i) && s.max_x == xs[i];
        assert(labels[c] == Some(q as usize) && c % w == s.max_x);
    }
    if s.max_y == 0 {
        assert(ys[one] == 0);
        assert(labels[one] == Some(q as usize) && one / w == s.max_y);
    } else {
        let d = choose|i: int|
            #![trigger labels[i]]
            0 <= i < n && carries(labels, q, i) && s.max_y == ys[i];
        assert(labels[d] == Some(q as usize) && d / w == s.max_y);
    }
}

proof fn labelled_pixel(labels: Seq<Option<usize>>, q: int, k: int) -> (i: int)
    requires
        0 <= k <= labels.len(),
        area_of(labels, q, k) > 0,
    ensures
        0 <= i < k,
        carries(labels, q, i),
    decreases k,
{
    if carries(labels, q, k - 1) {
        k - 1
    } else {
        labelled_pixel(labels, q, k - 1)
    }
}

/// Sum of the regions' areas.
pub open spec fn region_area_sum(regions: Seq<Region>, k: int) -> nat
    decreases k,
{
    if k <= 0 {
        0
    } else {
        region_area_sum(regions, k - 1) + regions[k - 1].area as nat
    }
}

/// The regions of a segmentation cover the image: their areas add up to the
/// number of pixels.
pub proof fn segmentation_covers_image(r: SegmentResult, n: int)
    requires
        result_wf(r, n),
        0 <= n,
    ensures
        region_area_sum(r.regions@, r.regions@.len() as int) == n,
{
    let m = r.regions@.len() as int;
    areas_add_up(r.labels@, m, n);
    all_labelled(r.labels@, n);
    area_sums_agree(r, n, m);
}

proof fn all_labelled(labels: Seq<Option<usize>>, k: int)
    requires
        0 <= k <= labels.len(),
        forall|i: int| #![trigger labels[i]] 0 <= i < k ==> labels[i] is Some,
    ensures
        labelled(labels, k) == k,
    decreases k,
{
    if k > 0 {
        all_labelled(labels, k - 1);
        assert(labels[k - 1] is Some);
    }
}

proof fn area_sums_agree(r: SegmentResult, n: int, m: int)
    requires
        result_wf(r, n),
        0 <= m <= r.regions@.len(),
    ensures
        region_area_sum(r.regions@, m) == areas_sum(r.labels@, m, n),
    decreases m,
{
    if m > 0 {
        area_sums_agree(r, n, m - 1);
        assert(r.regions@[m - 1].area == area_of(r.labels@, m - 1, n));
    }
}

/// Neighbouring pixels of one colour lie in one region, wherever every hint for
/// their edge strengths is below the wall.
pub proof fn equal_pixels_lie_together<
    H: Fn(Scalar, Scalar) -> Scalar,
    M: Fn(&Vec<Contact>, &RegionStats, &RegionStats) -> PairMeasure,
>(
    r: SegmentResult,
    pixels: Seq<[u8; 3]>,
    grow: GrowLimits,
    merge: MergeLimits,
    hint: H,
    measure: M,
    i: int,
    j: int,
)
    requires
        is_segmentation(r, pixels, grow, merge, hint, measure),
        frame(r.width, r.height, pixels.len() as int),
        grow.strong_sq > 0,
        grow.y_limit > 0,
        grow.chroma_limit > 0,
        0 <= j < i < pixels.len(),
        pixels[i] == pixels[j],
        (j == i - 1 && i % (r.width as int) != 0) || j == i - r.width,
        forall|v: Scalar| #[trigger]
            call_ensures(hint, (r.edge_map@[i], r.edge_map@[j]), v) ==> v.lt(grow.edge_wall),
    ensures
        r.labels@[i] == r.labels@[j],
{
    let st = choose|st: Stages|
        {
            &&& #[trigger] segmented_by(st, r, grow, merge)
            &&& features_of(st.px, pixels)
            &&& hinted(
                hint,
                r.edge_map@,
                st.hint_left,
                st.hint_up,
                r.width as int,
                pixels.len() as int,
            )
            &&& measured(
                measure,
                pixels,
                r.edge_map@,
                st.pairs,
                st.raw_regions,
                st.measures,
            )
        };
    let w = r.width as int;
    pixel_in_frame(r.width, r.height, pixels.len() as int, i);
    assert(st.px[i] == st.px[j]) by {
        assert(st.px[i].wf() && st.px[j].wf());
    }
    if j == i - 1 && i % w != 0 {
        assert(call_ensures(hint, (r.edge_map@[i], r.edge_map@[i - 1]), st.hint_left[i]));
    } else {
        assert(call_ensures(hint, (r.edge_map@[i], r.edge_map@[i - w]), st.hint_up[i]));
    }
    equal_neighbours_share_label(st, r, grow, merge, i, j);
}

/// Where every boundary measures at or below the merging limit, neighbouring
/// pixels always lie in one region.
pub proof fn weakly_parted_pixels_lie_together<
    H: Fn(Scalar, Scalar) -> Scalar,
    M: Fn(&Vec<Contact>, &RegionStats, &RegionStats) -> PairMeasure,
>(
    r: SegmentResult,
    pixels: Seq<[u8; 3]>,
    grow: GrowLimits,
    merge: MergeLimits,
    hint: H,
    measure: M,
    i: int,
    j: int,
)
    requires
        is_segmentation(r, pixels, grow, merge, hint, measure),
        pixels.len() <= u32::MAX,
        0 <= i < pixels.len(),
        0 <= j < pixels.len(),
        (j == i + 1 && j % (r.width as int) != 0) || j == i + r.width,
        forall|list: Vec<Contact>, a: RegionStats, b: RegionStats, m: PairMeasure| #[trigger]
            call_ensures(measure, (&list, &a, &b), m) ==> m.edge.le(merge.edge_merge),
    ensures
        r.labels@[i] == r.labels@[j],
{
    let st = choose|st: Stages|
        {
            &&& #[trigger] segmented_by(st, r, grow, merge)
            &&& features_of(st.px, pixels)
            &&& hinted(
                hint,
                r.edge_map@,
                st.hint_left,
                st.hint_up,
                r.width as int,
                pixels.len() as int,
            )
            &&& measured(
                measure,
                pixels,
                r.edge_map@,
                st.pairs,
                st.raw_regions,
                st.measures,
            )
        };
    assert(st.raw_labels[i] is Some && st.raw_labels[j] is Some);
    if st.raw_labels[i] == st.raw_labels[j] {
        grown_pixels_share_label(st, r, grow, merge, i, j);
    } else {
        let at = neighbours_are_listed(st.raw_labels, r.width as int, st.pairs, i, j);
        let k = at.0;
        assert(measured_as(
            measure,
            contacts_of(pixels, r.edge_map@, st.pairs[k]),
            st.raw_regions[st.pairs[k].a as int],
            st.raw_regions[st.pairs[k].b as int],
            st.measures[k],
        ));
        if st.raw_labels[i] == Some(st.pairs[k].a) {
            weak_boundary_melts(st, r, grow, merge, k, i, j);
        } else {
            weak_boundary_melts(st, r, grow, merge, k, j, i);
        }
    }
}

/// Where every boundary stands, the regions are those that have grown: two pixels
/// carry one label exactly if growing has brought them together.
pub proof fn standing_boundaries_keep_growth<
    H: Fn(Scalar, Scalar) -> Scalar,
    M: Fn(&Vec<Contact>, &RegionStats, &RegionStats) -> PairMeasure,
>(
    r: SegmentResult,
    pixels: Seq<[u8; 3]>,
    grow: GrowLimits,
    merge: MergeLimits,
    hint: H,
    measure: M,
) -> (st: Stages)
    requires
        is_segmentation(r, pixels, grow, merge, hint, measure),
        pixels.len() <= u32::MAX,
        forall|list: Vec<Contact>, a: RegionStats, b: RegionStats, m: PairMeasure| #[trigger]
            call_ensures(measure, (&list, &a, &b), m) ==> boundary_stands(
                m,
                a.area as int,
                b.area as int,
                merge,
            ),
    ensures
        grown(
            st.raw_labels,
            st.raw_regions,
            st.px,
            st.hint_left,
            st.hint_up,
            r.width,
            r.height,
            grow,
        ),
        features_of(st.px, pixels),
        hinted(
            hint,
            r.edge_map@,
            st.hint_left,
            st.hint_up,
            r.width as int,
            pixels.len() as int,
        ),
        forall|i: int, j: int|
            #![trigger r.labels@[i], r.labels@[j]]
            0 <= i < pixels.len() && 0 <= j < pixels.len() ==> (r.labels@[i] == r.labels@[j]
                <==> st.raw_labels[i] == st.raw_labels[j]),
{
    let st = choose|st: Stages|
        {
            &&& #[trigger] segmented_by(st, r, grow, merge)
            &&& features_of(st.px, pixels)
            &&& hinted(
                hint,
                r.edge_map@,
                st.hint_left,
                st.hint_up,
                r.width as int,
                pixels.len() as int,
            )
            &&& measured(
                measure,
                pixels,
                r.edge_map@,
                st.pairs,
                st.raw_regions,
                st.measures,
            )
        };
    assert forall|i: int, j: int|
        #![trigger r.labels@[i], r.labels@[j]]
        0 <= i < pixels.len() && 0 <= j < pixels.len() implies (r.labels@[i] == r.labels@[j]
        <==> st.raw_labels[i] == st.raw_labels[j]) by {
        if st.raw_labels[i] == st.raw_labels[j] {
            grown_pixels_share_label(st, r, grow, merge, i, j);
        } else {
            assert(st.raw_labels[i] is Some);
            let q = st.raw_labels[i]->Some_0;
            assert forall|k: int|
                #![trigger st.pairs[k]]
                0 <= k < st.pairs.len() && (st.pairs[k].a == q || st.pairs[k].b == q) implies
                boundary_stands(
                st.measures[k],
                st.raw_regions[st.pairs[k].a as int].area as int,
                st.raw_regions[st.pairs[k].b as int].area as int,
                merge,
            ) by {
                assert(measured_as(
                    measure,
                    contacts_of(pixels, r.edge_map@, st.pairs[k]),
                    st.raw_regions[st.pairs[k].a as int],
                    st.raw_regions[st.pairs[k].b as int],
                    st.measures[k],
                ));
            }
            walled_region_keeps_its_label(st, r, grow, merge, q, i, j);
        }
    }
    st
}

} // verus!
