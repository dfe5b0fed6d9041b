//! From grown blocks to the final segmentation: similar neighbours merge, small
//! blocks are absorbed, and what is left is described.

use vstd::prelude::*;
use crate::adjacency::{is_adjacency, pair_wf, touches, AdjacentStats};
use crate::anime::{blocks, blues, collect_stats, greens, reds, PixelFeature, RegionStats};
use crate::classes::{class_count, class_number, is_classes};
use crate::merge::{final_classes, merge_numbers, pairs_within, relabel, Offer, PairPlan};
use crate::region::{area_of, carries, frame, total_within_area, Palette, Region};
use crate::scalar::Scalar;

verus! {

/// Thresholds of merging and absorbing.
#[derive(Clone, Copy, Debug)]
pub struct MergeLimits {
    /// Mean boundary edge up to which two regions merge whatever their colours.
    pub edge_merge: Scalar,
    /// Mean boundary colour distance up to which two regions may merge.
    pub color_merge: Scalar,
    /// Mean boundary edge below which two regions of similar colour merge.
    pub edge_guard: Scalar,
    /// Mean boundary edge from which a small region resists absorption.
    pub edge_split: Scalar,
    /// Colour distance beyond which a small region resists absorption.
    pub small_color: Scalar,
    /// Whether small regions are absorbed at all.
    pub merge_small_regions: bool,
    /// Least area of a region, in pixels.
    pub min_region_area: usize,
    /// Least area of a region by its share of the image, in pixels.
    pub ratio_area: usize,
}

/// What is measured along the boundary of two touching regions.
#[derive(Clone, Copy, Debug)]
pub struct PairMeasure {
    /// Mean edge strength over the boundary samples.
    pub edge: Scalar,
    /// Mean colour distance over the boundary samples.
    pub color: Scalar,
    /// Distance of the two regions' mean colours.
    pub region_color: Scalar,
    /// Score of absorbing region `a` into `b`.
    pub score_a: Scalar,
    /// Score of absorbing region `b` into `a`.
    pub score_b: Scalar,
}

impl MergeLimits {
    /// Regions below this area are absorbed.
    pub open spec fn min_area(self) -> int {
        let a = if self.min_region_area >= self.ratio_area {
            self.min_region_area
        } else {
            self.ratio_area
        };
        if a >= 1 {
            a as int
        } else {
            1
        }
    }

    /// Regions up to this area never resist absorption.
    pub open spec fn tiny_area(self) -> int {
        if self.min_area() / 4 >= 2 {
            self.min_area() / 4
        } else {
            2
        }
    }

    /// Two regions with this boundary are one.
    pub open spec fn merges(self, m: PairMeasure) -> bool {
        m.edge.le(self.edge_merge) || (m.color.le(self.color_merge) && m.edge.lt(self.edge_guard))
    }

    /// A region of this area may be absorbed across this boundary.
    pub open spec fn absorbs(self, area: int, m: PairMeasure) -> bool {
        ||| area <= self.tiny_area()
        ||| !self.edge_split.le(m.edge)
        ||| !self.small_color.lt(m.region_color)
    }

    /// The decision on a pair of regions of areas `a` and `b`.
    pub open spec fn plan(self, a: int, b: int, m: PairMeasure) -> PairPlan {
        PairPlan {
            merge: self.merges(m),
            a_into_b: Offer { allowed: self.absorbs(a, m), score: m.score_a },
            b_into_a: Offer { allowed: self.absorbs(b, m), score: m.score_b },
        }
    }

    fn least_area(&self) -> (a: usize)
        ensures
            a == self.min_area(),
    {
        let a: usize = if self.min_region_area >= self.ratio_area {
            self.min_region_area
        } else {
            self.ratio_area
        };
        if a >= 1 {
            a
        } else {
            1
        }
    }

    fn may_absorb(&self, area: usize, m: &PairMeasure) -> (r: bool)
        ensures
            r == self.absorbs(area as int, *m),
    {
        let quarter: usize = self.least_area() / 4;
        let tiny: usize = if quarter >= 2 {
            quarter
        } else {
            2
        };
        area <= tiny || !self.edge_split.at_most(&m.edge) || !self.small_color.less(
            &m.region_color,
        )
    }

    /// The decision on a pair of regions of areas `a` and `b`.
    pub fn decide(&self, a: usize, b: usize, m: &PairMeasure) -> (p: PairPlan)
        ensures
            p == self.plan(a as int, b as int, *m),
    {
        let merge: bool = m.edge.at_most(&self.edge_merge) || (m.color.at_most(&self.color_merge)
            && m.edge.less(&self.edge_guard));
        PairPlan {
            merge,
            a_into_b: Offer { allowed: self.may_absorb(a, m), score: m.score_a },
            b_into_a: Offer { allowed: self.may_absorb(b, m), score: m.score_b },
        }
    }
}

/// A region of more than two pixels and of more than a quarter of both least
/// areas is never offered to a neighbour behind a strong edge and of a far colour,
/// on whichever side of the pair it stands.
pub proof fn strong_boundary_keeps_region(
    lim: MergeLimits,
    area: int,
    other: int,
    m: PairMeasure,
)
    requires
        area > 2,
        4 * area > lim.min_region_area,
        4 * area > lim.ratio_area,
        lim.edge_split.le(m.edge),
        lim.small_color.lt(m.region_color),
    ensures
        !lim.plan(area, other, m).a_into_b.allowed,
        !lim.plan(other, area, m).b_into_a.allowed,
{
}

/// A region is offered to a neighbour behind an edge below the limit, or of a
/// colour within the limit, or where the region has two pixels at most or at most
/// a quarter of one of the least areas.
pub proof fn soft_boundary_offers_region(
    lim: MergeLimits,
    area: int,
    other: int,
    m: PairMeasure,
)
    requires
        m.edge.lt(lim.edge_split) || m.region_color.le(lim.small_color) || area <= 2 || 4 * area
            <= lim.min_region_area || 4 * area <= lim.ratio_area,
    ensures
        lim.plan(area, other, m).a_into_b.allowed,
        lim.plan(other, area, m).b_into_a.allowed,
{
}

/// Two regions are one over a weak boundary whatever their colours, and over a
/// boundary below the guard where their colours are close.
pub proof fn weak_boundary_merges(lim: MergeLimits, a: int, b: int, m: PairMeasure)
    requires
        m.edge.le(lim.edge_merge) || (m.color.le(lim.color_merge) && m.edge.lt(lim.edge_guard)),
    ensures
        lim.plan(a, b, m).merge,
{
}

/// Two regions are not one over a boundary above the merging limit where the
/// colours are far or the boundary reaches the guard.
pub proof fn clear_boundary_stands(lim: MergeLimits, a: int, b: int, m: PairMeasure)
    requires
        lim.edge_merge.lt(m.edge),
        lim.color_merge.lt(m.color) || lim.edge_guard.le(m.edge),
    ensures
        !lim.plan(a, b, m).merge,
{
}

/// Each region is offered at its own score.
pub proof fn offers_have_their_scores(lim: MergeLimits, a: int, b: int, m: PairMeasure)
    ensures
        lim.plan(a, b, m).a_into_b.score == m.score_a,
        lim.plan(a, b, m).b_into_a.score == m.score_b,
{
}

/// A region counts as small exactly where it lies below one of the least areas.
pub proof fn small_by_either_area(lim: MergeLimits, area: int)
    requires
        area >= 1,
    ensures
        area < lim.min_area() <==> area < lim.min_region_area || area < lim.ratio_area,
{
}

/// The mean colour is the nearest whole number to the mean.
pub proof fn mean_color_is_nearest(rgb: [u8; 3], s: RegionStats)
    requires
        mean_color(rgb, s),
        s.area > 0,
    ensures
        -(s.area as int) <= 2 * (rgb[0] * s.area - s.sum_r) <= s.area,
        -(s.area as int) <= 2 * (rgb[1] * s.area - s.sum_g) <= s.area,
        -(s.area as int) <= 2 * (rgb[2] * s.area - s.sum_b) <= s.area,
{
    mean_is_nearest(s.sum_r as int, s.area as int);
    mean_is_nearest(s.sum_g as int, s.area as int);
    mean_is_nearest(s.sum_b as int, s.area as int);
}

proof fn mean_is_nearest(total: int, n: int)
    requires
        n > 0,
        total >= 0,
    ensures
        -n <= 2 * (RegionStats::rounded_mean(total, n) * n - total) <= n,
{
    let m = total + n / 2;
    let q = RegionStats::rounded_mean(total, n);
    vstd::arithmetic::div_mod::lemma_fundamental_div_mod(m, n);
    vstd::arithmetic::div_mod::lemma_mod_bound(m, n);
    assert(n * q == q * n) by (nonlinear_arith);
}

/// Areas of regions.
pub open spec fn areas(stats: Seq<RegionStats>) -> Seq<usize> {
    Seq::new(stats.len(), |r: int| stats[r].area)
}

/// The decisions on all pairs.
pub open spec fn plans(
    pairs: Seq<AdjacentStats>,
    stats: Seq<RegionStats>,
    measures: Seq<PairMeasure>,
    lim: MergeLimits,
) -> Seq<PairPlan> {
    Seq::new(
        pairs.len(),
        |k: int|
            lim.plan(
                stats[pairs[k].a as int].area as int,
                stats[pairs[k].b as int].area as int,
                measures[k],
            ),
    )
}

/// The labels below `m` that some pixel carries, in increasing order.
pub open spec fn live(labels: Seq<Option<usize>>, m: int) -> Seq<int>
    decreases m,
{
    if m <= 0 {
        seq![]
    } else if area_of(labels, m - 1, labels.len() as int) > 0 {
        live(labels, m - 1).push(m - 1)
    } else {
        live(labels, m - 1)
    }
}

/// Statistics of the labels below `num_regions` that some pixel carries.
pub fn rebuild_stats(
    px: &[PixelFeature],
    labels: &[Option<usize>],
    num_regions: usize,
    width: u32,
    height: u32,
) -> (stats: Vec<RegionStats>)
    requires
        frame(width, height, px@.len() as int),
        labels@.len() == px@.len(),
        forall|i: int|
            #![trigger labels@[i]]
            0 <= i < labels@.len() && labels@[i] is Some ==> labels@[i]->Some_0 < num_regions,
    ensures
        stats@.len() == live(labels@, num_regions as int).len(),
        forall|q: int|
            0 <= q < stats@.len() ==> (#[trigger] stats@[q]).area > 0 && stats@[q].describes(
                live(labels@, num_regions as int)[q],
                labels@,
                px@,
                width,
                height,
                px@.len() as int,
            ),
{
    let all = collect_stats(px, labels, num_regions, width, height);
    let mut stats: Vec<RegionStats> = Vec::new();
    let mut r: usize = 0;
    while r < num_regions
        invariant
            r <= num_regions,
            all@.len() == num_regions,
            labels@.len() == px@.len(),
            forall|q: int|
                0 <= q < num_regions ==> (#[trigger] all@[q]).describes(
                    q,
                    labels@,
                    px@,
                    width,
                    height,
                    px@.len() as int,
                ),
            stats@.len() == live(labels@, r as int).len(),
            forall|q: int|
                0 <= q < stats@.len() ==> (#[trigger] stats@[q]).area > 0 && stats@[q].describes(
                    live(labels@, r as int)[q],
                    labels@,
                    px@,
                    width,
                    height,
                    px@.len() as int,
                ),
        decreases num_regions - r,
    {
        let s = all[r];
        assert(all@[r as int].describes(r as int, labels@, px@, width, height, px@.len() as int));
        if s.area > 0 {
            stats.push(s);
        }
        r += 1;
    }
    stats
}

/// `reg` is the region numbered `q` with the statistics `s`.
pub open spec fn presents(reg: Region, q: int, s: RegionStats) -> bool {
    &&& reg.id == q
    &&& reg.cluster_id == q
    &&& reg.area == s.area
    &&& reg.pixel_count == s.area
    &&& reg.sum_x == s.sum_x
    &&& reg.sum_y == s.sum_y
    &&& reg.bbox == (s.min_x, s.min_y, s.max_x, s.max_y)
}

/// `rgb` is the mean colour of the statistics `s`, which are not empty.
pub open spec fn mean_color(rgb: [u8; 3], s: RegionStats) -> bool {
    &&& rgb[0] == RegionStats::rounded_mean(s.sum_r as int, s.area as int)
    &&& rgb[1] == RegionStats::rounded_mean(s.sum_g as int, s.area as int)
    &&& rgb[2] == RegionStats::rounded_mean(s.sum_b as int, s.area as int)
}

/// The regions, numbered in order, and their mean colours with pixel counts.
pub fn stats_to_output(stats: &[RegionStats]) -> (r: (Vec<Region>, Palette))
    requires
        forall|q: int|
            #![trigger stats@[q]]
            0 <= q < stats@.len() ==> {
                &&& 0 < stats@[q].area <= u32::MAX
                &&& stats@[q].sum_r <= 255 * stats@[q].area
                &&& stats@[q].sum_g <= 255 * stats@[q].area
                &&& stats@[q].sum_b <= 255 * stats@[q].area
            },
    ensures
        r.0@.len() == stats@.len(),
        r.1.colors@.len() == stats@.len(),
        r.1.counts@.len() == stats@.len(),
        forall|q: int|
            #![trigger stats@[q]]
            0 <= q < stats@.len() ==> {
                &&& presents(r.0@[q], q, stats@[q])
                &&& mean_color(r.1.colors@[q], stats@[q])
                &&& r.1.counts@[q] == stats@[q].area
            },
{
    let mut regions: Vec<Region> = Vec::new();
    let mut colors: Vec<[u8; 3]> = Vec::new();
    let mut counts: Vec<usize> = Vec::new();
    let mut q: usize = 0;
    while q < stats.len()
        invariant
            q <= stats@.len(),
            regions@.len() == q,
            colors@.len() == q,
            counts@.len() == q,
            forall|q: int|
                #![trigger stats@[q]]
                0 <= q < stats@.len() ==> {
                    &&& 0 < stats@[q].area <= u32::MAX
                    &&& stats@[q].sum_r <= 255 * stats@[q].area
                    &&& stats@[q].sum_g <= 255 * stats@[q].area
                    &&& stats@[q].sum_b <= 255 * stats@[q].area
                },
            forall|k: int|
                #![trigger stats@[k]]
                0 <= k < q ==> {
                    &&& presents(regions@[k], k, stats@[k])
                    &&& mean_color(colors@[k], stats@[k])
                    &&& counts@[k] == stats@[k].area
                },
        decreases stats@.len() - q,
    {
        let s = stats[q];
        colors.push(s.mean_rgb());
        counts.push(s.area);
        regions.push(
            Region {
                id: q,
                cluster_id: q,
                area: s.area,
                sum_x: s.sum_x,
                sum_y: s.sum_y,
                bbox: (s.min_x, s.min_y, s.max_x, s.max_y),
                pixel_count: s.area,
            },
        );
        q += 1;
    }
    (regions, Palette { colors, counts })
}

proof fn channel_totals_fit(
    s: RegionStats,
    r: int,
    labels: Seq<Option<usize>>,
    px: Seq<PixelFeature>,
    width: u32,
    height: u32,
)
    requires
        s.describes(r, labels, px, width, height, px.len() as int),
        px.len() <= u32::MAX,
    ensures
        s.area <= u32::MAX,
        s.sum_r <= 255 * s.area,
        s.sum_g <= 255 * s.area,
        s.sum_b <= 255 * s.area,
{
    let n = px.len() as int;
    total_within_area(labels, reds(px), r, n, 255);
    total_within_area(labels, greens(px), r, n, 255);
    total_within_area(labels, blues(px), r, n, 255);
    crate::region::total_bounded(labels, reds(px), r, n, 255);
}

/// Region, colour and count number `q` present the pixels that carry the label `r`.
pub open spec fn presents_label(
    reg: Region,
    color: [u8; 3],
    count: usize,
    q: int,
    r: int,
    labels: Seq<Option<usize>>,
    px: Seq<PixelFeature>,
    width: u32,
    height: u32,
) -> bool {
    exists|s: RegionStats|
        {
            &&& #[trigger] s.describes(r, labels, px, width, height, px.len() as int)
            &&& s.area > 0
            &&& presents(reg, q, s)
            &&& mean_color(color, s)
            &&& count == s.area
        }
}

/// Regions and palette present the label map: one region and one colour per
/// label in use, in label order.
pub open spec fn presents_labels(
    regions: Seq<Region>,
    palette: Palette,
    labels: Seq<Option<usize>>,
    px: Seq<PixelFeature>,
    width: u32,
    height: u32,
    num_regions: int,
) -> bool {
    &&& regions.len() == live(labels, num_regions).len()
    &&& palette.colors@.len() == regions.len()
    &&& palette.counts@.len() == regions.len()
    &&& forall|q: int|
        #![trigger regions[q]]
        0 <= q < regions.len() ==> presents_label(
            regions[q],
            palette.colors@[q],
            palette.counts@[q],
            q,
            live(labels, num_regions)[q],
            labels,
            px,
            width,
            height,
        )
}

/// Regions, labels and palette are what the grown regions become when pairs
/// merge and small regions are absorbed as the measures decide.
pub open spec fn merged_into(
    regions: Seq<Region>,
    labels: Seq<Option<usize>>,
    palette: Palette,
    px: Seq<PixelFeature>,
    raw_labels: Seq<Option<usize>>,
    raw_regions: Seq<RegionStats>,
    pairs: Seq<AdjacentStats>,
    measures: Seq<PairMeasure>,
    width: u32,
    height: u32,
    lim: MergeLimits,
) -> bool {
    let c = final_classes(
        areas(raw_regions),
        pairs,
        plans(pairs, raw_regions, measures, lim),
        lim.merge_small_regions,
        lim.min_area(),
    );
    &&& is_classes(c)
    &&& c.len() == raw_regions.len()
    &&& labels.len() == raw_labels.len()
    &&& forall|i: int|
        #![trigger labels[i]]
        0 <= i < labels.len() ==> match raw_labels[i] {
            Some(old) => labels[i] is Some && labels[i]->Some_0 == class_number(c, old as int)
                && labels[i]->Some_0 < class_count(c),
            None => labels[i] is None,
        }
    &&& presents_labels(regions, palette, labels, px, width, height, class_count(c) as int)
}

/// Merges the grown regions as the measures decide, lets small ones be absorbed,
/// and describes what is left.
pub fn merge_regions(
    px: &[PixelFeature],
    raw_labels: &[Option<usize>],
    raw_regions: &[RegionStats],
    pairs: &[AdjacentStats],
    measures: &[PairMeasure],
    width: u32,
    height: u32,
    lim: &MergeLimits,
) -> (r: (Vec<Region>, Vec<Option<usize>>, Palette))
    requires
        frame(width, height, px@.len() as int),
        raw_labels@.len() == px@.len(),
        forall|i: int|
            #![trigger raw_labels@[i]]
            0 <= i < raw_labels@.len() && raw_labels@[i] is Some ==> raw_labels@[i]->Some_0
                < raw_regions@.len(),
        is_adjacency(raw_labels@, width as int, pairs@),
        measures@.len() == pairs@.len(),
    ensures
        merged_into(
            r.0@,
            r.1@,
            r.2,
            px@,
            raw_labels@,
            raw_regions@,
            pairs@,
            measures@,
            width,
            height,
            *lim,
        ),
{
    let mut sizes: Vec<usize> = Vec::new();
    let mut r: usize = 0;
    while r < raw_regions.len()
        invariant
            r <= raw_regions@.len(),
            sizes@.len() == r,
            forall|k: int| 0 <= k < r ==> sizes@[k] == areas(raw_regions@)[k],
        decreases raw_regions@.len() - r,
    {
        sizes.push(raw_regions[r].area);
        r += 1;
    }
    proof {
        assert(sizes@ =~= areas(raw_regions@));
        adjacency_within(raw_labels@, width as int, pairs@, raw_regions@.len() as int);
    }
    let mut decisions: Vec<PairPlan> = Vec::new();
    let mut k: usize = 0;
    while k < pairs.len()
        invariant
            k <= pairs@.len(),
            measures@.len() == pairs@.len(),
            pairs_within(pairs@, raw_regions@.len() as int),
            decisions@.len() == k,
            forall|m: int|
                0 <= m < k ==> decisions@[m] == plans(pairs@, raw_regions@, measures@, *lim)[m],
        decreases pairs@.len() - k,
    {
        assert(pairs@[k as int].a < raw_regions@.len() && pairs@[k as int].b < raw_regions@.len());
        decisions.push(
            lim.decide(raw_regions[pairs[k].a].area, raw_regions[pairs[k].b].area, &measures[k]),
        );
        k += 1;
    }
    proof {
        assert(decisions@ =~= plans(pairs@, raw_regions@, measures@, *lim));
    }
    let (numbers, count) = merge_numbers(
        &sizes,
        pairs,
        &decisions,
        lim.merge_small_regions,
        lim.least_area(),
    );
    let labels = relabel(raw_labels, &numbers);
    proof {
        assert forall|i: int|
            #![trigger labels@[i]]
            0 <= i < labels@.len() && labels@[i] is Some implies labels@[i]->Some_0 < count by {
            assert(raw_labels@[i] is Some);
            let old = raw_labels@[i]->Some_0 as int;
            assert(numbers@[old] < count);
        }
    }
    let stats = rebuild_stats(px, &labels, count, width, height);
    proof {
        assert forall|q: int| #![trigger stats@[q]] 0 <= q < stats@.len() implies {
            &&& 0 < stats@[q].area <= u32::MAX
            &&& stats@[q].sum_r <= 255 * stats@[q].area
            &&& stats@[q].sum_g <= 255 * stats@[q].area
            &&& stats@[q].sum_b <= 255 * stats@[q].area
        } by {
            channel_totals_fit(
                stats@[q],
                live(labels@, count as int)[q],
                labels@,
                px@,
                width,
                height,
            );
        }
    }
    let (regions, palette) = stats_to_output(&stats);
    proof {
        assert forall|q: int| #![trigger regions@[q]] 0 <= q < regions@.len() implies presents_label(
            regions@[q],
            palette.colors@[q],
            palette.counts@[q],
            q,
            live(labels@, count as int)[q],
            labels@,
            px@,
            width,
            height,
        ) by {
            let s = stats@[q];
            assert(s.describes(
                live(labels@, count as int)[q],
                labels@,
                px@,
                width,
                height,
                px@.len() as int,
            ));
        }
    }
    proof {
        let c = final_classes(
            areas(raw_regions@),
            pairs@,
            plans(pairs@, raw_regions@, measures@, *lim),
            lim.merge_small_regions,
            lim.min_area(),
        );
        assert forall|i: int| #![trigger labels@[i]] 0 <= i < labels@.len() implies match
            raw_labels@[i] {
            Some(old) => labels@[i] is Some && labels@[i]->Some_0 == class_number(c, old as int)
                && labels@[i]->Some_0 < class_count(c),
            None => labels@[i] is None,
        } by {
            if raw_labels@[i] is Some {
                let old = raw_labels@[i]->Some_0 as int;
                assert(numbers@[old] == class_number(c, old));
            }
        }
        assert(presents_labels(regions@, palette, labels@, px@, width, height, count as int));
    }
    (regions, labels, palette)
}

/// The pairs of an adjacency name labels in use, two different ones each.
pub proof fn adjacency_within(
    labels: Seq<Option<usize>>,
    w: int,
    pairs: Seq<AdjacentStats>,
    n: int,
)
    requires
        is_adjacency(labels, w, pairs),
        forall|i: int|
            #![trigger labels[i]]
            0 <= i < labels.len() && labels[i] is Some ==> labels[i]->Some_0 < n,
    ensures
        pairs_within(pairs, n),
        forall|k: int| #![trigger pairs[k]] 0 <= k < pairs.len() ==> pairs[k].a != pairs[k].b,
{
    assert forall|k: int| #![trigger pairs[k]] 0 <= k < pairs.len() implies pairs[k].a < n
        && pairs[k].b < n && pairs[k].a != pairs[k].b by {
        assert(pair_wf(labels, w, pairs[k]));
        let (i, j) = pairs[k].samples@[0];
        assert(touches(labels, w, i as int, j as int));
        assert(labels[i as int] is Some && labels[j as int] is Some);
    }
}

/// A region carries its own number, as its cluster's too, and the place and size
/// of its pixels.
pub proof fn regions_carry_their_number(reg: Region, q: int, s: RegionStats)
    requires
        presents(reg, q, s),
    ensures
        reg.id == q && reg.cluster_id == q,
        reg.area == s.area && reg.pixel_count == s.area,
        reg.sum_x == s.sum_x && reg.sum_y == s.sum_y,
        reg.bbox.0 == s.min_x && reg.bbox.1 == s.min_y,
        reg.bbox.2 == s.max_x && reg.bbox.3 == s.max_y,
{
}

} // verus!
