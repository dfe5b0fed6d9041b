//! Edge-aware refinement of a region map: regions with a weak boundary merge,
//! regions with a strong edge inside split.

use vstd::prelude::*;
use crate::adjacency::{compute_adjacency, is_adjacency, neighbours_are_listed, AdjacentStats};
use crate::anime_merge::adjacency_within;
use crate::classes::{class_count, class_number, class_numbers_dense, is_classes};
use crate::merge::{
    classes_keep_sides, final_classes, merge_numbers, merged_pairs_share_class, pairs_within,
    relabel, relabelled, small_region_finds_company, Offer, PairPlan,
};
use crate::region::{
    area_of, areas_add_up, areas_sum, carries, frame, labelled, total_of, Region,
};
use crate::scalar::Scalar;
use crate::split::{
    all_near, calm_pixels, is_metric, large_parts_are_told_apart, max_over, min_over, parts,
    quiet_region_stays_whole, split_areas_count, split_keeps_pixels, split_labels,
    split_labels_within, split_region, split_regions, splits, Moments,
};

verus! {

/// Thresholds of refinement.
#[derive(Clone, Copy, Debug)]
pub struct RefineLimits {
    /// Mean boundary edge up to which two regions merge whatever their colours.
    pub edge_merge: Scalar,
    /// Edge strength from which a pixel splits its region.
    pub edge_split: Scalar,
    /// Colour distance up to which two regions may merge.
    pub color_merge: Scalar,
    /// Mean boundary edge up to which regions of similar colour merge.
    pub color_edge: Scalar,
    /// Colour distance up to which a small region may be absorbed.
    pub small_color: Scalar,
    /// Whether small regions are absorbed.
    pub merge_small_regions: bool,
    /// Least area of a region, in pixels.
    pub min_region_area: usize,
}

/// What is measured along the boundary of two touching regions.
#[derive(Clone, Copy, Debug)]
pub struct BoundaryMeasure {
    /// Mean edge strength over the boundary samples.
    pub edge: Scalar,
    /// Distance of the two clusters' colours, where both are known.
    pub lab: Option<Scalar>,
    /// Score of absorbing one of the regions into the other.
    pub score: Scalar,
}

/// The colour distance of two regions: zero within one cluster, else that of
/// the clusters.
pub open spec fn color_distance(a: Region, b: Region, lab: Option<Scalar>) -> Option<Scalar> {
    if a.cluster_id == b.cluster_id {
        Some(Scalar { bits: 0 })
    } else {
        lab
    }
}

/// The colour distance of two regions: zero within one cluster, else that of
/// the clusters.
pub fn region_color_distance(a: &Region, b: &Region, lab: Option<Scalar>) -> (d: Option<Scalar>)
    ensures
        d == color_distance(*a, *b, lab),
{
    if a.cluster_id == b.cluster_id {
        Some(Scalar::zero())
    } else {
        lab
    }
}

impl RefineLimits {
    /// Two regions at this colour distance with this mean boundary edge are one.
    pub open spec fn merges(self, edge: Scalar, color: Option<Scalar>) -> bool {
        edge.le(self.edge_merge) || (color is Some && color->Some_0.le(self.color_merge)
            && edge.le(self.color_edge))
    }

    /// Regions up to this area are absorbed over soft edges.
    pub open spec fn tiny_area(self) -> int {
        if self.min_region_area / 4 >= 1 {
            (self.min_region_area / 4) as int
        } else {
            1
        }
    }

    /// A region of this area may be absorbed by one at this colour distance.
    pub open spec fn absorbs(self, area: int, edge: Scalar, color: Option<Scalar>) -> bool {
        ||| (color is Some && color->Some_0.le(self.small_color))
        ||| edge.le(self.edge_merge)
        ||| (area <= self.tiny_area() && edge.le(self.edge_split))
    }

    /// The decision on a pair of regions.
    pub open spec fn plan(self, a: Region, b: Region, m: BoundaryMeasure) -> PairPlan {
        let color = color_distance(a, b, m.lab);
        PairPlan {
            merge: self.merges(m.edge, color),
            a_into_b: Offer {
                allowed: self.absorbs(a.area as int, m.edge, color),
                score: m.score,
            },
            b_into_a: Offer {
                allowed: self.absorbs(b.area as int, m.edge, color),
                score: m.score,
            },
        }
    }

    /// Whether two regions at this colour distance with this mean boundary edge
    /// are one.
    pub fn should_merge_pair(&self, edge: Scalar, color: Option<Scalar>) -> (r: bool)
        ensures
            r == self.merges(edge, color),
    {
        if edge.at_most(&self.edge_merge) {
            return true;
        }
        match color {
            Some(d) => d.at_most(&self.color_merge) && edge.at_most(&self.color_edge),
            None => false,
        }
    }

    fn may_absorb(&self, area: usize, edge: Scalar, color: Option<Scalar>) -> (r: bool)
        ensures
            r == self.absorbs(area as int, edge, color),
    {
        let color_ok: bool = match color {
            Some(d) => d.at_most(&self.small_color),
            None => false,
        };
        let quarter: usize = self.min_region_area / 4;
        let tiny: usize = if quarter >= 1 {
            quarter
        } else {
            1
        };
        color_ok || edge.at_most(&self.edge_merge) || (area <= tiny && edge.at_most(
            &self.edge_split,
        ))
    }

    /// The decision on a pair of regions.
    pub fn decide(&self, a: &Region, b: &Region, m: &BoundaryMeasure) -> (p: PairPlan)
        ensures
            p == self.plan(*a, *b, *m),
    {
        let color = region_color_distance(a, b, m.lab);
        PairPlan {
            merge: self.should_merge_pair(m.edge, color),
            a_into_b: Offer {
                allowed: self.may_absorb(a.area, m.edge, color),
                score: m.score,
            },
            b_into_a: Offer {
                allowed: self.may_absorb(b.area, m.edge, color),
                score: m.score,
            },
        }
    }
}

/// Two regions are one over an edge within the merging limit, and over an edge
/// within the colour limit where their colours are close or they share a cluster.
pub proof fn weak_boundary_merges(lim: RefineLimits, a: Region, b: Region, m: BoundaryMeasure)
    requires
        ({
            ||| m.edge.le(lim.edge_merge)
            ||| a.cluster_id == b.cluster_id && (Scalar { bits: 0 }).le(lim.color_merge)
                && m.edge.le(lim.color_edge)
            ||| a.cluster_id != b.cluster_id && m.lab is Some && m.lab->Some_0.le(lim.color_merge)
                && m.edge.le(lim.color_edge)
        }),
    ensures
        lim.plan(a, b, m).merge,
{
}

/// Two regions of different clusters are not one over an edge above the merging
/// limit where it is above the colour limit too, or their colours are far or
/// unknown.
pub proof fn clear_boundary_stands(lim: RefineLimits, a: Region, b: Region, m: BoundaryMeasure)
    requires
        lim.edge_merge.lt(m.edge),
        lim.color_edge.lt(m.edge) || (a.cluster_id != b.cluster_id && (m.lab is None
            || lim.color_merge.lt(m.lab->Some_0))),
    ensures
        !lim.plan(a, b, m).merge,
{
}

/// A region is offered to a neighbour of close colour or of its own cluster
/// whatever the edge between them, to any neighbour behind an edge within the
/// merging limit, and, where it has one pixel at most or at most a quarter of the
/// least area, to any neighbour behind an edge within the splitting limit.
pub proof fn soft_boundary_offers_region(
    lim: RefineLimits,
    a: Region,
    b: Region,
    m: BoundaryMeasure,
)
    requires
        ({
            ||| a.cluster_id == b.cluster_id && (Scalar { bits: 0 }).le(lim.small_color)
            ||| a.cluster_id != b.cluster_id && m.lab is Some && m.lab->Some_0.le(lim.small_color)
            ||| m.edge.le(lim.edge_merge)
            ||| (a.area <= 1 || 4 * a.area <= lim.min_region_area) && m.edge.le(lim.edge_split)
        }),
    ensures
        lim.plan(a, b, m).a_into_b.allowed,
        lim.plan(b, a, m).b_into_a.allowed,
{
}

/// A region is not offered to a neighbour of another cluster, of far or unknown
/// colour, behind an edge above the merging limit, unless it is tiny and the edge
/// within the splitting limit.
pub proof fn strong_boundary_keeps_region(
    lim: RefineLimits,
    a: Region,
    b: Region,
    m: BoundaryMeasure,
)
    requires
        a.cluster_id != b.cluster_id,
        m.lab is None || lim.small_color.lt(m.lab->Some_0),
        lim.edge_merge.lt(m.edge),
        lim.edge_split.lt(m.edge) || (a.area > 1 && 4 * a.area > lim.min_region_area),
    ensures
        !lim.plan(a, b, m).a_into_b.allowed,
        !lim.plan(b, a, m).b_into_a.allowed,
{
}

/// Both regions are offered at the score of their boundary.
pub proof fn offers_have_their_score(lim: RefineLimits, a: Region, b: Region, m: BoundaryMeasure)
    ensures
        lim.plan(a, b, m).a_into_b.score == m.score,
        lim.plan(a, b, m).b_into_a.score == m.score,
{
}

/// Areas of regions.
pub open spec fn areas(regions: Seq<Region>) -> Seq<usize> {
    Seq::new(regions.len(), |r: int| regions[r].area)
}

/// The decisions on all pairs.
pub open spec fn plans(
    pairs: Seq<AdjacentStats>,
    regions: Seq<Region>,
    measures: Seq<BoundaryMeasure>,
    lim: RefineLimits,
) -> Seq<PairPlan> {
    Seq::new(
        pairs.len(),
        |k: int|
            lim.plan(regions[pairs[k].a as int], regions[pairs[k].b as int], measures[k]),
    )
}

/// What is added up and compared over the members of a merged region.
pub ghost struct Columns {
    pub area: Seq<int>,
    pub pixel_count: Seq<int>,
    pub sum_x: Seq<int>,
    pub sum_y: Seq<int>,
    pub min_x: Seq<int>,
    pub min_y: Seq<int>,
    pub max_x: Seq<int>,
    pub max_y: Seq<int>,
}

/// The fields of regions, one sequence each.
pub open spec fn fields(regions: Seq<Region>) -> Columns {
    let n = regions.len();
    Columns {
        area: Seq::new(n, |r: int| regions[r].area as int),
        pixel_count: Seq::new(n, |r: int| regions[r].pixel_count as int),
        sum_x: Seq::new(n, |r: int| regions[r].sum_x as int),
        sum_y: Seq::new(n, |r: int| regions[r].sum_y as int),
        min_x: Seq::new(n, |r: int| regions[r].bbox.0 as int),
        min_y: Seq::new(n, |r: int| regions[r].bbox.1 as int),
        max_x: Seq::new(n, |r: int| regions[r].bbox.2 as int),
        max_y: Seq::new(n, |r: int| regions[r].bbox.3 as int),
    }
}

/// Sum of the first `k` values.
pub open spec fn sum_to(vals: Seq<int>, k: int) -> int
    decreases k,
{
    if k <= 0 {
        0
    } else {
        sum_to(vals, k - 1) + vals[k - 1]
    }
}

/// The regions' sums fit in the machine types.
pub open spec fn sums_fit(regions: Seq<Region>) -> bool {
    let f = fields(regions);
    let n = regions.len() as int;
    &&& sum_to(f.area, n) <= usize::MAX
    &&& sum_to(f.pixel_count, n) <= usize::MAX
    &&& sum_to(f.sum_x, n) <= u64::MAX
    &&& sum_to(f.sum_y, n) <= u64::MAX
}

/// The membership of regions: each with the number of the region it goes into.
pub open spec fn membership(numbers: Seq<usize>) -> Seq<Option<usize>> {
    Seq::new(numbers.len(), |r: int| Some(numbers[r]))
}

/// The cluster of a merged region: that of the last member, in order, that was
/// larger than all before it together.
pub open spec fn leading_cluster(
    regions: Seq<Region>,
    group: Seq<Option<usize>>,
    q: int,
    k: int,
) -> usize
    decreases k,
{
    if k <= 0 {
        0
    } else if carries(group, q, k - 1) && regions[k - 1].area > total_of(
        group,
        fields(regions).area,
        q,
        k - 1,
    ) {
        regions[k - 1].cluster_id
    } else {
        leading_cluster(regions, group, q, k - 1)
    }
}

/// `mr` is the merged region number `q`, made of its members among the first `k`.
pub open spec fn combines(
    mr: Region,
    regions: Seq<Region>,
    group: Seq<Option<usize>>,
    q: int,
    width: u32,
    height: u32,
    k: int,
) -> bool {
    let f = fields(regions);
    &&& mr.id == q
    &&& mr.cluster_id == leading_cluster(regions, group, q, k)
    &&& mr.area == total_of(group, f.area, q, k)
    &&& mr.pixel_count == total_of(group, f.pixel_count, q, k)
    &&& mr.sum_x == total_of(group, f.sum_x, q, k)
    &&& mr.sum_y == total_of(group, f.sum_y, q, k)
    &&& mr.bbox.0 == min_over(group, f.min_x, q, k, width as int)
    &&& mr.bbox.1 == min_over(group, f.min_y, q, k, height as int)
    &&& mr.bbox.2 == max_over(group, f.max_x, q, k)
    &&& mr.bbox.3 == max_over(group, f.max_y, q, k)
}

proof fn total_within_sum(group: Seq<Option<usize>>, vals: Seq<int>, q: int, k: int, n: int)
    requires
        0 <= k <= n,
        forall|i: int| 0 <= i < n ==> 0 <= #[trigger] vals[i],
    ensures
        0 <= total_of(group, vals, q, k) <= sum_to(vals, k) <= sum_to(vals, n),
        k < n ==> sum_to(vals, k) + vals[k] <= sum_to(vals, n),
    decreases n,
{
    if k < n {
        total_within_sum(group, vals, q, k, n - 1);
    } else if k > 0 {
        total_within_sum(group, vals, q, k - 1, n - 1);
    }
}

/// Adds up the members of each merged region.
fn combine_regions(
    regions: &[Region],
    numbers: &[usize],
    count: usize,
    width: u32,
    height: u32,
) -> (out: Vec<Region>)
    requires
        numbers@.len() == regions@.len(),
        forall|r: int| #![trigger numbers@[r]] 0 <= r < numbers@.len() ==> numbers@[r] < count,
        sums_fit(regions@),
    ensures
        out@.len() == count,
        forall|q: int|
            #![trigger out@[q]]
            0 <= q < count ==> combines(
                out@[q],
                regions@,
                membership(numbers@),
                q,
                width,
                height,
                regions@.len() as int,
            ),
{
    let ghost group = membership(numbers@);
    let mut out: Vec<Region> = Vec::new();
    let mut q: usize = 0;
    while q < count
        invariant
            q <= count,
            out@.len() == q,
            forall|p: int|
                #![trigger out@[p]]
                0 <= p < q ==> combines(out@[p], regions@, group, p, width, height, 0),
        decreases count - q,
    {
        out.push(
            Region {
                id: q,
                cluster_id: 0,
                area: 0,
                sum_x: 0,
                sum_y: 0,
                bbox: (width, height, 0, 0),
                pixel_count: 0,
            },
        );
        q += 1;
    }
    let mut k: usize = 0;
    while k < regions.len()
        invariant
            k <= regions@.len(),
            numbers@.len() == regions@.len(),
            group == membership(numbers@),
            out@.len() == count,
            forall|r: int| #![trigger numbers@[r]] 0 <= r < numbers@.len() ==> numbers@[r] < count,
            sums_fit(regions@),
            forall|p: int|
                #![trigger out@[p]]
                0 <= p < count ==> combines(out@[p], regions@, group, p, width, height, k as int),
        decreases regions@.len() - k,
    {
        let q = numbers[k];
        let r = regions[k];
        let mr = out[q];
        let ghost before = out@;
        proof {
            let f = fields(regions@);
            let n = regions@.len() as int;
            assert(combines(out@[q as int], regions@, group, q as int, width, height, k as int));
            total_within_sum(group, f.area, q as int, k as int, n);
            total_within_sum(group, f.pixel_count, q as int, k as int, n);
            total_within_sum(group, f.sum_x, q as int, k as int, n);
            total_within_sum(group, f.sum_y, q as int, k as int, n);
        }
        let cluster_id: usize = if r.area > mr.area {
            r.cluster_id
        } else {
            mr.cluster_id
        };
        let bbox: (u32, u32, u32, u32) = (
            if r.bbox.0 < mr.bbox.0 {
                r.bbox.0
            } else {
                mr.bbox.0
            },
            if r.bbox.1 < mr.bbox.1 {
                r.bbox.1
            } else {
                mr.bbox.1
            },
            if r.bbox.2 > mr.bbox.2 {
                r.bbox.2
            } else {
                mr.bbox.2
            },
            if r.bbox.3 > mr.bbox.3 {
                r.bbox.3
            } else {
                mr.bbox.3
            },
        );
        out.set(
            q,
            Region {
                id: mr.id,
                cluster_id,
                area: mr.area + r.area,
                sum_x: mr.sum_x + r.sum_x,
                sum_y: mr.sum_y + r.sum_y,
                bbox,
                pixel_count: mr.pixel_count + r.pixel_count,
            },
        );
        proof {
            assert forall|p: int| #![trigger out@[p]] 0 <= p < count implies combines(
                out@[p],
                regions@,
                group,
                p,
                width,
                height,
                k + 1,
            ) by {
                assert(combines(before[p], regions@, group, p, width, height, k as int));
                assert(carries(group, p, k as int) <==> p == q);
            }
        }
        k += 1;
    }
    out
}

/// The outcome of merging: regions with their members added up, and the label
/// map renumbered.
pub open spec fn merge_outcome(
    out: Seq<Region>,
    out_labels: Seq<Option<usize>>,
    numbers: Seq<usize>,
    regions: Seq<Region>,
    labels: Seq<Option<usize>>,
    pairs: Seq<AdjacentStats>,
    measures: Seq<BoundaryMeasure>,
    width: u32,
    height: u32,
    lim: RefineLimits,
) -> bool {
    let c = final_classes(
        areas(regions),
        pairs,
        plans(pairs, regions, measures, lim),
        lim.merge_small_regions && lim.min_region_area > 0,
        lim.min_region_area as int,
    );
    &&& is_classes(c)
    &&& c.len() == regions.len()
    &&& numbers.len() == regions.len()
    &&& forall|r: int|
        #![trigger numbers[r]]
        0 <= r < numbers.len() ==> numbers[r] == class_number(c, r) && numbers[r] < out.len()
    &&& out.len() == class_count(c)
    &&& forall|q: int|
        #![trigger out[q]]
        0 <= q < out.len() ==> combines(
            out[q],
            regions,
            membership(numbers),
            q,
            width,
            height,
            regions.len() as int,
        )
    &&& out_labels == relabelled(labels, numbers)
}

/// Labels name regions.
pub open spec fn labels_within(labels: Seq<Option<usize>>, n: int) -> bool {
    forall|i: int|
        #![trigger labels[i]]
        0 <= i < labels.len() && labels[i] is Some ==> labels[i]->Some_0 < n
}

/// Merges regions over weak boundaries and absorbs small ones.
pub fn perform_merge(
    regions: &[Region],
    labels: &[Option<usize>],
    pairs: &[AdjacentStats],
    measures: &[BoundaryMeasure],
    width: u32,
    height: u32,
    lim: &RefineLimits,
) -> (r: (Vec<Region>, Vec<Option<usize>>, Vec<usize>))
    requires
        is_adjacency(labels@, width as int, pairs@),
        labels_within(labels@, regions@.len() as int),
        measures@.len() == pairs@.len(),
        sums_fit(regions@),
    ensures
        merge_outcome(
            r.0@,
            r.1@,
            r.2@,
            regions@,
            labels@,
            pairs@,
            measures@,
            width,
            height,
            *lim,
        ),
{
    let mut sizes: Vec<usize> = Vec::new();
    let mut r: usize = 0;
    while r < regions.len()
        invariant
            r <= regions@.len(),
            sizes@.len() == r,
            forall|k: int| 0 <= k < r ==> sizes@[k] == areas(regions@)[k],
        decreases regions@.len() - r,
    {
        sizes.push(regions[r].area);
        r += 1;
    }
    proof {
        assert(sizes@ =~= areas(regions@));
        adjacency_within(labels@, width as int, pairs@, regions@.len() as int);
    }
    let mut decisions: Vec<PairPlan> = Vec::new();
    let mut k: usize = 0;
    while k < pairs.len()
        invariant
            k <= pairs@.len(),
            measures@.len() == pairs@.len(),
            pairs_within(pairs@, regions@.len() as int),
            decisions@.len() == k,
            forall|m: int|
                0 <= m < k ==> decisions@[m] == plans(pairs@, regions@, measures@, *lim)[m],
        decreases pairs@.len() - k,
    {
        assert(pairs@[k as int].a < regions@.len() && pairs@[k as int].b < regions@.len());
        decisions.push(lim.decide(&regions[pairs[k].a], &regions[pairs[k].b], &measures[k]));
        k += 1;
    }
    proof {
        assert(decisions@ =~= plans(pairs@, regions@, measures@, *lim));
    }
    let (numbers, count) = merge_numbers(
        &sizes,
        pairs,
        &decisions,
        lim.merge_small_regions && lim.min_region_area > 0,
        lim.min_region_area,
    );
    let out = combine_regions(regions, &numbers, count, width, height);
    let out_labels = relabel(labels, &numbers);
    (out, out_labels, numbers)
}

/// The region with another number.
pub open spec fn with_id(r: Region, id: int) -> Region {
    Region {
        id: id as usize,
        cluster_id: r.cluster_id,
        area: r.area,
        sum_x: r.sum_x,
        sum_y: r.sum_y,
        bbox: r.bbox,
        pixel_count: r.pixel_count,
    }
}

/// The regions after the first `k` have been split.
pub open spec fn all_split<D: Fn(Moments, Moments) -> Scalar>(
    regions: Seq<Region>,
    labels: Seq<Option<usize>>,
    edge: Seq<Scalar>,
    limit: Scalar,
    min_area: int,
    w: int,
    distance: D,
    k: int,
) -> Seq<Region>
    decreases k,
{
    if k <= 0 {
        seq![]
    } else {
        let before = all_split(regions, labels, edge, limit, min_area, w, distance, k - 1);
        let subs = split_regions(regions[k - 1], labels, edge, limit, min_area, w, distance);
        before + Seq::new(subs.len(), |q: int| with_id(subs[q], before.len() + q))
    }
}

/// The label map after the first `k` regions have been split: a region that
/// stays whole keeps its pixels, a region that splits hands them to its parts.
pub open spec fn all_relabelled<D: Fn(Moments, Moments) -> Scalar>(
    regions: Seq<Region>,
    labels: Seq<Option<usize>>,
    edge: Seq<Scalar>,
    limit: Scalar,
    min_area: int,
    w: int,
    distance: D,
    k: int,
) -> Seq<Option<usize>>
    decreases k,
{
    if k <= 0 {
        Seq::new(labels.len(), |i: int| None)
    } else {
        let before = all_relabelled(regions, labels, edge, limit, min_area, w, distance, k - 1);
        let base = all_split(regions, labels, edge, limit, min_area, w, distance, k - 1).len();
        let r = regions[k - 1];
        let subs = split_regions(r, labels, edge, limit, min_area, w, distance);
        let map = split_labels(r, labels, edge, limit, min_area, w, distance);
        Seq::new(
            labels.len(),
            |i: int|
                if subs.len() <= 1 {
                    if carries(labels, r.id as int, i) {
                        Some(base as usize)
                    } else {
                        before[i]
                    }
                } else {
                    match map[i] {
                        Some(q) => Some((base + q) as usize),
                        None => before[i],
                    }
                },
        )
    }
}

/// `out` and `out_labels` are a region map of the same pixels and the same total
/// area, if the distances allow; the map they come from was one.
pub open spec fn keeps_map<D: Fn(Moments, Moments) -> Scalar>(
    regions: Seq<Region>,
    labels: Seq<Option<usize>>,
    distance: D,
    out: Seq<Region>,
    out_labels: Seq<Option<usize>>,
) -> bool {
    is_region_map(regions, labels) ==> {
        &&& is_region_map(out, out_labels)
        &&& all_near(distance) ==> {
            &&& forall|i: int|
                #![trigger out_labels[i]]
                0 <= i < labels.len() ==> (out_labels[i] is Some <==> labels[i] is Some)
            &&& total_area(out) == total_area(regions)
        }
    }
}

/// Splits every region that has a strong edge inside and numbers what results.
pub fn perform_split<D: Fn(Moments, Moments) -> Scalar>(
    regions: &[Region],
    labels: &[Option<usize>],
    edge: &[Scalar],
    width: u32,
    height: u32,
    limit: Scalar,
    min_area: usize,
    distance: &D,
) -> (r: (Vec<Region>, Vec<Option<usize>>))
    requires
        frame(width, height, labels@.len() as int),
        edge@.len() == labels@.len(),
        is_metric(*distance),
    ensures
        r.0@ == all_split(
            regions@,
            labels@,
            edge@,
            limit,
            min_area as int,
            width as int,
            *distance,
            regions@.len() as int,
        ),
        r.1@ == all_relabelled(
            regions@,
            labels@,
            edge@,
            limit,
            min_area as int,
            width as int,
            *distance,
            regions@.len() as int,
        ),
        keeps_map(regions@, labels@, *distance, r.0@, r.1@),
{
    let n = labels.len();
    let ghost w = width as int;
    let ghost ma = min_area as int;
    let mut out: Vec<Region> = Vec::new();
    let mut out_labels: Vec<Option<usize>> = Vec::new();
    let mut i: usize = 0;
    while i < n
        invariant
            i <= n,
            out_labels@.len() == i,
            forall|p: int| #![trigger out_labels@[p]] 0 <= p < i ==> out_labels@[p] is None,
        decreases n - i,
    {
        out_labels.push(None);
        i += 1;
    }
    let mut k: usize = 0;
    proof {
        assert(out_labels@ =~= all_relabelled(
            regions@,
            labels@,
            edge@,
            limit,
            ma,
            w,
            *distance,
            0,
        ));
    }
    while k < regions.len()
        invariant
            k <= regions@.len(),
            n == labels@.len(),
            w == width,
            ma == min_area,
            frame(width, height, n as int),
            edge@.len() == n,
            is_metric(*distance),
            out@ == all_split(regions@, labels@, edge@, limit, ma, w, *distance, k as int),
            out_labels@ == all_relabelled(
                regions@,
                labels@,
                edge@,
                limit,
                ma,
                w,
                *distance,
                k as int,
            ),
            out_labels@.len() == n,
        decreases regions@.len() - k,
    {
        let region = &regions[k];
        let (subs, map) = split_region(
            region,
            labels,
            edge,
            width,
            height,
            limit,
            min_area,
            distance,
        );
        let base = out.len();
        let ghost before = out@;
        let ghost before_labels = out_labels@;
        let mut q: usize = 0;
        while q < subs.len()
            invariant
                q <= subs@.len(),
                base == before.len(),
                out@.len() == base + q,
                forall|p: int| #![trigger out@[p]] 0 <= p < base ==> out@[p] == before[p],
                forall|p: int|
                    #![trigger out@[p]]
                    base <= p < base + q ==> out@[p] == with_id(subs@[p - base], p),
            decreases subs@.len() - q,
        {
            let s = subs[q];
            let id = out.len();
            out.push(
                Region {
                    id,
                    cluster_id: s.cluster_id,
                    area: s.area,
                    sum_x: s.sum_x,
                    sum_y: s.sum_y,
                    bbox: s.bbox,
                    pixel_count: s.pixel_count,
                },
            );
            q += 1;
        }
        let ghost next = all_split(regions@, labels@, edge@, limit, ma, w, *distance, k + 1);
        let ghost next_labels = all_relabelled(
            regions@,
            labels@,
            edge@,
            limit,
            ma,
            w,
            *distance,
            k + 1,
        );
        proof {
            assert(out@ =~= next);
        }
        let total = out.len();
        let mut i: usize = 0;
        while i < n
            invariant
                i <= n,
                total == out@.len(),
                n == labels@.len(),
                n == map@.len(),
                n == out_labels@.len(),
                n == before_labels.len(),
                n == next_labels.len(),
                out@.len() == base + subs@.len(),
                map@ == split_labels(*region, labels@, edge@, limit, ma, w, *distance),
                subs@ == split_regions(*region, labels@, edge@, limit, ma, w, *distance),
                forall|p: int|
                    #![trigger next_labels[p]]
                    0 <= p < n ==> next_labels[p] == if subs@.len() <= 1 {
                        if carries(labels@, region.id as int, p) {
                            Some(base)
                        } else {
                            before_labels[p]
                        }
                    } else {
                        match map@[p] {
                            Some(q) => Some((base + q) as usize),
                            None => before_labels[p],
                        }
                    },
                forall|p: int|
                    #![trigger out_labels@[p]]
                    0 <= p < n ==> out_labels@[p] == if p < i {
                        next_labels[p]
                    } else {
                        before_labels[p]
                    },
            decreases n - i,
        {
            proof {
                split_labels_within(
                    *region,
                    labels@,
                    edge@,
                    limit,
                    ma,
                    w,
                    *distance,
                    i as int,
                );
            }
            if subs.len() <= 1 {
                let here: bool = match labels[i] {
                    Some(r) => r == region.id,
                    None => false,
                };
                if here {
                    out_labels.set(i, Some(base));
                }
            } else if let Some(q) = map[i] {
                out_labels.set(i, Some(base + q));
            }
            i += 1;
        }
        proof {
            assert(out_labels@ =~= next_labels);
        }
        k += 1;
    }
    let count = out.len();
    proof {
        assert(count == out@.len());
        if is_region_map(regions@, labels@) {
            width_is_positive(width, height, n as int);
            splitting_keeps_pixels(regions@, labels@, edge@, limit, ma, w, *distance);
        }
    }
    (out, out_labels)
}

proof fn width_is_positive(width: u32, height: u32, n: int)
    requires
        frame(width, height, n),
    ensures
        width > 0 || n == 0,
{
    if width == 0 {
        assert(width * height == 0) by (nonlinear_arith)
            requires
                width == 0,
        ;
    }
}

/// `got` is what `measure` gives for a pair and its two regions, with the colour
/// distance left out unless colours count.
pub open spec fn measured_as<M: Fn(&AdjacentStats, &Region, &Region) -> BoundaryMeasure>(
    measure: M,
    colors: bool,
    pair: AdjacentStats,
    a: Region,
    b: Region,
    got: BoundaryMeasure,
) -> bool {
    exists|m: BoundaryMeasure| #[trigger]
        call_ensures(measure, (&pair, &a, &b), m) && got == counted(m, colors)
}

/// `measures[k]` is what `measure` gives for pair `k` and its two regions.
pub open spec fn measured<M: Fn(&AdjacentStats, &Region, &Region) -> BoundaryMeasure>(
    measure: M,
    colors: bool,
    pairs: Seq<AdjacentStats>,
    regions: Seq<Region>,
    measures: Seq<BoundaryMeasure>,
) -> bool {
    &&& measures.len() == pairs.len()
    &&& forall|k: int|
        #![trigger measures[k]]
        0 <= k < pairs.len() ==> measured_as(
            measure,
            colors,
            pairs[k],
            regions[pairs[k].a as int],
            regions[pairs[k].b as int],
            measures[k],
        )
}

/// The measure, without its colour distance unless colours count.
pub open spec fn counted(m: BoundaryMeasure, colors: bool) -> BoundaryMeasure {
    BoundaryMeasure {
        edge: m.edge,
        lab: if colors {
            m.lab
        } else {
            None
        },
        score: m.score,
    }
}

/// The intermediate results of a refinement.
pub ghost struct Stages {
    pub pairs: Seq<AdjacentStats>,
    pub measures: Seq<BoundaryMeasure>,
    pub merged: Seq<Region>,
    pub merged_labels: Seq<Option<usize>>,
    pub numbers: Seq<usize>,
}

/// Merging and splitting lead to the refined regions by way of `st`.
pub open spec fn refined_by<D: Fn(Moments, Moments) -> Scalar>(
    st: Stages,
    out: Seq<Region>,
    out_labels: Seq<Option<usize>>,
    regions: Seq<Region>,
    labels: Seq<Option<usize>>,
    edge: Seq<Scalar>,
    width: u32,
    height: u32,
    lim: RefineLimits,
    distance: D,
) -> bool {
    &&& is_adjacency(labels, width as int, st.pairs)
    &&& merge_outcome(
        st.merged,
        st.merged_labels,
        st.numbers,
        regions,
        labels,
        st.pairs,
        st.measures,
        width,
        height,
        lim,
    )
    &&& out == all_split(
        st.merged,
        st.merged_labels,
        edge,
        lim.edge_split,
        lim.min_region_area as int,
        width as int,
        distance,
        st.merged.len() as int,
    )
    &&& out_labels == all_relabelled(
        st.merged,
        st.merged_labels,
        edge,
        lim.edge_split,
        lim.min_region_area as int,
        width as int,
        distance,
        st.merged.len() as int,
    )
}

/// `out` and `out_labels` are the refinement of the region map.
pub open spec fn is_refinement<
    M: Fn(&AdjacentStats, &Region, &Region) -> BoundaryMeasure,
    D: Fn(Moments, Moments) -> Scalar,
>(
    out: Seq<Region>,
    out_labels: Seq<Option<usize>>,
    regions: Seq<Region>,
    labels: Seq<Option<usize>>,
    edge: Seq<Scalar>,
    width: u32,
    height: u32,
    lim: RefineLimits,
    colors: bool,
    measure: M,
    distance: D,
) -> bool {
    exists|st: Stages|
        {
            &&& #[trigger] refined_by(
                st,
                out,
                out_labels,
                regions,
                labels,
                edge,
                width,
                height,
                lim,
                distance,
            )
            &&& measured(measure, colors, st.pairs, regions, st.measures)
        }
}

/// Refines a region map by merging and splitting, judging pairs by their
/// boundary and by whether they belong to one cluster.
pub fn refine<
    M: Fn(&AdjacentStats, &Region, &Region) -> BoundaryMeasure,
    D: Fn(Moments, Moments) -> Scalar,
>(
    regions: &[Region],
    labels: &[Option<usize>],
    edge: &[Scalar],
    width: u32,
    height: u32,
    lim: &RefineLimits,
    measure: &M,
    distance: &D,
) -> (r: (Vec<Region>, Vec<Option<usize>>))
    requires
        frame(width, height, labels@.len() as int),
        edge@.len() == labels@.len(),
        regions@.len() <= u32::MAX,
        labels_within(labels@, regions@.len() as int),
        sums_fit(regions@),
        forall|p: &AdjacentStats, a: &Region, b: &Region| #[trigger]
            call_requires(*measure, (p, a, b)),
        is_metric(*distance),
    ensures
        is_refinement(
            r.0@,
            r.1@,
            regions@,
            labels@,
            edge@,
            width,
            height,
            *lim,
            false,
            *measure,
            *distance,
        ),
        regions@.len() == 0 ==> r.0@.len() == 0,
        r.1@.len() == labels@.len(),
        keeps_map(regions@, labels@, *distance, r.0@, r.1@),
{
    refine_impl(regions, labels, edge, width, height, lim, false, measure, distance)
}

/// Refines a region map by merging and splitting, judging pairs by their
/// boundary and by the distance of their clusters' colours.
pub fn refine_with_colors<
    M: Fn(&AdjacentStats, &Region, &Region) -> BoundaryMeasure,
    D: Fn(Moments, Moments) -> Scalar,
>(
    regions: &[Region],
    labels: &[Option<usize>],
    edge: &[Scalar],
    width: u32,
    height: u32,
    lim: &RefineLimits,
    measure: &M,
    distance: &D,
) -> (r: (Vec<Region>, Vec<Option<usize>>))
    requires
        frame(width, height, labels@.len() as int),
        edge@.len() == labels@.len(),
        regions@.len() <= u32::MAX,
        labels_within(labels@, regions@.len() as int),
        sums_fit(regions@),
        forall|p: &AdjacentStats, a: &Region, b: &Region| #[trigger]
            call_requires(*measure, (p, a, b)),
        is_metric(*distance),
    ensures
        is_refinement(
            r.0@,
            r.1@,
            regions@,
            labels@,
            edge@,
            width,
            height,
            *lim,
            true,
            *measure,
            *distance,
        ),
        regions@.len() == 0 ==> r.0@.len() == 0,
        r.1@.len() == labels@.len(),
        keeps_map(regions@, labels@, *distance, r.0@, r.1@),
{
    refine_impl(regions, labels, edge, width, height, lim, true, measure, distance)
}

fn refine_impl<
    M: Fn(&AdjacentStats, &Region, &Region) -> BoundaryMeasure,
    D: Fn(Moments, Moments) -> Scalar,
>(
    regions: &[Region],
    labels: &[Option<usize>],
    edge: &[Scalar],
    width: u32,
    height: u32,
    lim: &RefineLimits,
    colors: bool,
    measure: &M,
    distance: &D,
) -> (r: (Vec<Region>, Vec<Option<usize>>))
    requires
        frame(width, height, labels@.len() as int),
        edge@.len() == labels@.len(),
        regions@.len() <= u32::MAX,
        labels_within(labels@, regions@.len() as int),
        sums_fit(regions@),
        forall|p: &AdjacentStats, a: &Region, b: &Region| #[trigger]
            call_requires(*measure, (p, a, b)),
        is_metric(*distance),
    ensures
        is_refinement(
            r.0@,
            r.1@,
            regions@,
            labels@,
            edge@,
            width,
            height,
            *lim,
            colors,
            *measure,
            *distance,
        ),
        regions@.len() == 0 ==> r.0@.len() == 0,
        r.1@.len() == labels@.len(),
        keeps_map(regions@, labels@, *distance, r.0@, r.1@),
{
    let pairs = compute_adjacency(labels, width, height);
    proof {
        adjacency_within(labels@, width as int, pairs@, regions@.len() as int);
    }
    let mut measures: Vec<BoundaryMeasure> = Vec::new();
    let mut k: usize = 0;
    while k < pairs.len()
        invariant
            k <= pairs@.len(),
            pairs_within(pairs@, regions@.len() as int),
            forall|p: &AdjacentStats, a: &Region, b: &Region| #[trigger]
                call_requires(*measure, (p, a, b)),
            measures@.len() == k,
            forall|q: int|
                #![trigger measures@[q]]
                0 <= q < k ==> measured_as(
                    *measure,
                    colors,
                    pairs@[q],
                    regions@[pairs@[q].a as int],
                    regions@[pairs@[q].b as int],
                    measures@[q],
                ),
        decreases pairs@.len() - k,
    {
        assert(pairs@[k as int].a < regions@.len() && pairs@[k as int].b < regions@.len());
        let p = &pairs[k];
        let m = (*measure)(p, &regions[p.a], &regions[p.b]);
        let lab: Option<Scalar> = if colors {
            m.lab
        } else {
            None
        };
        measures.push(BoundaryMeasure { edge: m.edge, lab, score: m.score });
        assert(measures@[k as int] == counted(m, colors));
        k += 1;
    }
    let (merged, merged_labels, numbers) = perform_merge(
        regions,
        labels,
        &pairs,
        &measures,
        width,
        height,
        lim,
    );
    let (out, out_labels) = perform_split(
        &merged,
        &merged_labels,
        edge,
        width,
        height,
        lim.edge_split,
        lim.min_region_area,
        distance,
    );
    let count = out.len();
    proof {
        assert(count == out@.len());
        let st = Stages {
            pairs: pairs@,
            measures: measures@,
            merged: merged@,
            merged_labels: merged_labels@,
            numbers: numbers@,
        };
        assert(refined_by(
            st,
            out@,
            out_labels@,
            regions@,
            labels@,
            edge@,
            width,
            height,
            *lim,
            *distance,
        ));
        if is_region_map(regions@, labels@) {
            refining_keeps_pixels(
                out@,
                out_labels@,
                regions@,
                labels@,
                edge@,
                width,
                height,
                *lim,
                colors,
                *measure,
                *distance,
            );
        }
    }
    (out, out_labels)
}

/// Sum of the regions' areas.
pub open spec fn total_area(regions: Seq<Region>) -> int {
    sum_to(fields(regions).area, regions.len() as int)
}

/// A region below the least area does not stay alone where it touches a region of
/// its cluster or of close colour, or one behind a weak edge, or, being tiny, one
/// behind an edge within the splitting limit: it goes into one region with
/// another.
pub proof fn small_region_is_absorbed(
    out: Seq<Region>,
    out_labels: Seq<Option<usize>>,
    numbers: Seq<usize>,
    regions: Seq<Region>,
    labels: Seq<Option<usize>>,
    pairs: Seq<AdjacentStats>,
    measures: Seq<BoundaryMeasure>,
    width: u32,
    height: u32,
    lim: RefineLimits,
    k: int,
    q: int,
) -> (other: int)
    requires
        merge_outcome(
            out,
            out_labels,
            numbers,
            regions,
            labels,
            pairs,
            measures,
            width,
            height,
            lim,
        ),
        regions.len() <= usize::MAX,
        is_adjacency(labels, width as int, pairs),
        labels_within(labels, regions.len() as int),
        lim.merge_small_regions,
        0 <= k < pairs.len(),
        pairs[k].a == q || pairs[k].b == q,
        regions[q].area < lim.min_region_area,
        ({
            let a = regions[pairs[k].a as int];
            let b = regions[pairs[k].b as int];
            let m = measures[k];
            ||| a.cluster_id == b.cluster_id && (Scalar { bits: 0 }).le(lim.small_color)
            ||| a.cluster_id != b.cluster_id && m.lab is Some && m.lab->Some_0.le(lim.small_color)
            ||| m.edge.le(lim.edge_merge)
            ||| (regions[q].area <= 1 || 4 * regions[q].area <= lim.min_region_area) && m.edge.le(
                lim.edge_split,
            )
        }),
    ensures
        0 <= other < regions.len(),
        other != q,
        numbers[other] == numbers[q],
{
    adjacency_within(labels, width as int, pairs, regions.len() as int);
    let p = pairs[k];
    let a = regions[p.a as int];
    let b = regions[p.b as int];
    if p.a == q {
        soft_boundary_offers_region(lim, a, b, measures[k]);
    } else {
        soft_boundary_offers_region(lim, b, a, measures[k]);
    }
    let other = small_region_finds_company(
        areas(regions),
        pairs,
        plans(pairs, regions, measures, lim),
        lim.min_region_area as int,
        k,
        q,
    );
    assert(numbers[other] == numbers[q]);
    other
}

/// Two touching regions with a weak boundary become one.
pub proof fn weak_boundary_melts(
    out: Seq<Region>,
    out_labels: Seq<Option<usize>>,
    numbers: Seq<usize>,
    regions: Seq<Region>,
    labels: Seq<Option<usize>>,
    pairs: Seq<AdjacentStats>,
    measures: Seq<BoundaryMeasure>,
    width: u32,
    height: u32,
    lim: RefineLimits,
    k: int,
)
    requires
        merge_outcome(
            out,
            out_labels,
            numbers,
            regions,
            labels,
            pairs,
            measures,
            width,
            height,
            lim,
        ),
        regions.len() <= usize::MAX,
        is_adjacency(labels, width as int, pairs),
        labels_within(labels, regions.len() as int),
        0 <= k < pairs.len(),
        ({
            let a = regions[pairs[k].a as int];
            let b = regions[pairs[k].b as int];
            let m = measures[k];
            ||| m.edge.le(lim.edge_merge)
            ||| a.cluster_id == b.cluster_id && (Scalar { bits: 0 }).le(lim.color_merge)
                && m.edge.le(lim.color_edge)
            ||| a.cluster_id != b.cluster_id && m.lab is Some && m.lab->Some_0.le(lim.color_merge)
                && m.edge.le(lim.color_edge)
        }),
    ensures
        numbers[pairs[k].a as int] == numbers[pairs[k].b as int],
{
    adjacency_within(labels, width as int, pairs, regions.len() as int);
    let p = pairs[k];
    weak_boundary_merges(lim, regions[p.a as int], regions[p.b as int], measures[k]);
    merged_pairs_share_class(
        areas(regions),
        pairs,
        plans(pairs, regions, measures, lim),
        lim.merge_small_regions && lim.min_region_area > 0,
        lim.min_region_area as int,
        k,
    );
    assert(numbers[p.a as int] == numbers[p.b as int]);
}

/// A region of another cluster and of far or unknown colour than all its
/// neighbours, behind edges above the merging, colour and splitting limits, stays
/// a region of its own.
pub proof fn walled_region_stays_alone(
    out: Seq<Region>,
    out_labels: Seq<Option<usize>>,
    numbers: Seq<usize>,
    regions: Seq<Region>,
    labels: Seq<Option<usize>>,
    pairs: Seq<AdjacentStats>,
    measures: Seq<BoundaryMeasure>,
    width: u32,
    height: u32,
    lim: RefineLimits,
    q: int,
    other: int,
)
    requires
        merge_outcome(
            out,
            out_labels,
            numbers,
            regions,
            labels,
            pairs,
            measures,
            width,
            height,
            lim,
        ),
        regions.len() <= usize::MAX,
        is_adjacency(labels, width as int, pairs),
        labels_within(labels, regions.len() as int),
        0 <= q < regions.len(),
        0 <= other < regions.len(),
        other != q,
        forall|k: int|
            #![trigger pairs[k]]
            0 <= k < pairs.len() && (pairs[k].a == q || pairs[k].b == q) ==> {
                let a = regions[pairs[k].a as int];
                let b = regions[pairs[k].b as int];
                let m = measures[k];
                &&& a.cluster_id != b.cluster_id
                &&& m.lab is None || (lim.small_color.lt(m.lab->Some_0) && lim.color_merge.lt(
                    m.lab->Some_0,
                ))
                &&& lim.edge_merge.lt(m.edge)
                &&& lim.edge_split.lt(m.edge) || (a.area > 1 && 4 * a.area > lim.min_region_area
                    && b.area > 1 && 4 * b.area > lim.min_region_area)
            },
    ensures
        numbers[q] != numbers[other],
{
    adjacency_within(labels, width as int, pairs, regions.len() as int);
    let sizes = areas(regions);
    let plan = plans(pairs, regions, measures, lim);
    let absorb = lim.merge_small_regions && lim.min_region_area > 0;
    let least = lim.min_region_area as int;
    let side = |x: int| x == q;
    assert forall|k: int|
        #![trigger pairs[k]]
        0 <= k < pairs.len() && side(pairs[k].a as int) != side(pairs[k].b as int) implies {
        &&& !plan[k].merge
        &&& absorb && sizes[pairs[k].a as int] < least ==> !plan[k].a_into_b.allowed
        &&& absorb && sizes[pairs[k].b as int] < least ==> !plan[k].b_into_a.allowed
    } by {
        let a = regions[pairs[k].a as int];
        let b = regions[pairs[k].b as int];
        strong_boundary_keeps_region(lim, a, b, measures[k]);
        strong_boundary_keeps_region(lim, b, a, measures[k]);
        clear_boundary_stands(lim, a, b, measures[k]);
    }
    classes_keep_sides(sizes, pairs, plan, absorb, least, side, q, other);
    let c = final_classes(sizes, pairs, plan, absorb, least);
    class_numbers_dense(c, q, other);
    assert(numbers[q] == class_number(c, q) && numbers[other] == class_number(c, other));
}

/// The area of the members before one never exceeds that of the members other
/// than it, and a majority is the last to lead.
proof fn majority_leads(
    regions: Seq<Region>,
    group: Seq<Option<usize>>,
    q: int,
    r: int,
    k: int,
)
    requires
        group.len() == regions.len(),
        0 <= r < regions.len(),
        0 <= k <= regions.len(),
        group[r] == Some(q as usize),
        0 <= q <= usize::MAX,
        2 * regions[r].area > total_of(group, fields(regions).area, q, regions.len() as int),
    ensures
        k > r ==> leading_cluster(regions, group, q, k) == regions[r].cluster_id,
        k > r ==> total_of(group, fields(regions).area, q, k) >= regions[r].area,
        k <= r ==> total_of(group, fields(regions).area, q, k) + regions[r].area <= total_of(
            group,
            fields(regions).area,
            q,
            regions.len() as int,
        ),
    decreases k,
{
    let f = fields(regions).area;
    let n = regions.len() as int;
    if k <= r {
        total_rises(group, f, q, k, r);
        total_rises(group, f, q, r + 1, n);
        assert(carries(group, q, r));
    } else {
        majority_leads(regions, group, q, r, k - 1);
        if k - 1 > r {
            total_rises(group, f, q, k - 1, k);
            total_rises(group, f, q, k, n);
        } else {
            total_rises(group, f, q, 0, r);
            assert(carries(group, q, r));
        }
    }
}

proof fn total_rises(group: Seq<Option<usize>>, f: Seq<int>, q: int, j: int, k: int)
    requires
        0 <= j <= k <= f.len(),
        forall|i: int| 0 <= i < f.len() ==> 0 <= #[trigger] f[i],
    ensures
        total_of(group, f, q, j) <= total_of(group, f, q, k),
    decreases k,
{
    if j < k {
        total_rises(group, f, q, j, k - 1);
    }
}

/// A merged region adds up its members, and takes the cluster of the member that
/// makes up more than half of its area.
pub proof fn merged_region_adds_up(
    out: Seq<Region>,
    out_labels: Seq<Option<usize>>,
    numbers: Seq<usize>,
    regions: Seq<Region>,
    labels: Seq<Option<usize>>,
    pairs: Seq<AdjacentStats>,
    measures: Seq<BoundaryMeasure>,
    width: u32,
    height: u32,
    lim: RefineLimits,
    q: int,
    r: int,
)
    requires
        merge_outcome(
            out,
            out_labels,
            numbers,
            regions,
            labels,
            pairs,
            measures,
            width,
            height,
            lim,
        ),
        0 <= r < regions.len(),
        numbers[r] == q,
    ensures
        ({
            let n = regions.len();
            let group = Seq::new(n, |i: int| Some(numbers[i]));
            let o = out[q];
            &&& o.id == q
            &&& o.area == total_of(group, Seq::new(n, |i: int| regions[i].area as int), q, n as int)
            &&& o.pixel_count == total_of(
                group,
                Seq::new(n, |i: int| regions[i].pixel_count as int),
                q,
                n as int,
            )
            &&& o.sum_x == total_of(
                group,
                Seq::new(n, |i: int| regions[i].sum_x as int),
                q,
                n as int,
            )
            &&& o.sum_y == total_of(
                group,
                Seq::new(n, |i: int| regions[i].sum_y as int),
                q,
                n as int,
            )
            &&& 2 * regions[r].area > o.area ==> o.cluster_id == regions[r].cluster_id
            &&& o.bbox.0 <= regions[r].bbox.0 && o.bbox.1 <= regions[r].bbox.1
            &&& o.bbox.2 >= regions[r].bbox.2 && o.bbox.3 >= regions[r].bbox.3
            &&& o.bbox.0 == width || exists|m: int|
                0 <= m < n && #[trigger] numbers[m] == q && regions[m].bbox.0 == o.bbox.0
            &&& o.bbox.1 == height || exists|m: int|
                0 <= m < n && #[trigger] numbers[m] == q && regions[m].bbox.1 == o.bbox.1
            &&& o.bbox.2 == 0 || exists|m: int|
                0 <= m < n && #[trigger] numbers[m] == q && regions[m].bbox.2 == o.bbox.2
            &&& o.bbox.3 == 0 || exists|m: int|
                0 <= m < n && #[trigger] numbers[m] == q && regions[m].bbox.3 == o.bbox.3
        }),
{
    let n = regions.len();
    let group = Seq::new(n, |i: int| Some(numbers[i]));
    assert(membership(numbers) =~= group);
    let f = fields(regions);
    assert(f.area =~= Seq::new(n, |i: int| regions[i].area as int));
    assert(f.pixel_count =~= Seq::new(n, |i: int| regions[i].pixel_count as int));
    assert(f.sum_x =~= Seq::new(n, |i: int| regions[i].sum_x as int));
    assert(f.sum_y =~= Seq::new(n, |i: int| regions[i].sum_y as int));
    assert(numbers[r] < out.len());
    assert(combines(out[q], regions, group, q, width, height, n as int));
    if 2 * regions[r].area > out[q].area {
        majority_leads(regions, group, q, r, n as int);
    }
    assert(carries(group, q, r));
    least_is_below(group, f.min_x, q, n as int, width as int, r);
    least_is_below(group, f.min_y, q, n as int, height as int, r);
    greatest_is_above(group, f.max_x, q, n as int, r);
    greatest_is_above(group, f.max_y, q, n as int, r);
    let a = least_is_attained(group, f.min_x, q, n as int, width as int);
    let b = least_is_attained(group, f.min_y, q, n as int, height as int);
    let c = greatest_is_attained(group, f.max_x, q, n as int);
    let d = greatest_is_attained(group, f.max_y, q, n as int);
    if a >= 0 {
        assert(numbers[a] == q);
    }
    if b >= 0 {
        assert(numbers[b] == q);
    }
    if c >= 0 {
        assert(numbers[c] == q);
    }
    if d >= 0 {
        assert(numbers[d] == q);
    }
}

proof fn least_is_attained(
    group: Seq<Option<usize>>,
    vals: Seq<int>,
    q: int,
    k: int,
    start: int,
) -> (m: int)
    requires
        0 <= k,
    ensures
        -1 <= m < k || k == 0 && m == -1,
        m == -1 ==> min_over(group, vals, q, k, start) == start,
        m >= 0 ==> carries(group, q, m) && min_over(group, vals, q, k, start) == vals[m],
    decreases k,
{
    if k == 0 {
        -1
    } else if carries(group, q, k - 1) && vals[k - 1] < min_over(group, vals, q, k - 1, start) {
        k - 1
    } else {
        least_is_attained(group, vals, q, k - 1, start)
    }
}

proof fn greatest_is_attained(group: Seq<Option<usize>>, vals: Seq<int>, q: int, k: int) -> (m: int)
    requires
        0 <= k,
    ensures
        -1 <= m < k || k == 0 && m == -1,
        m == -1 ==> max_over(group, vals, q, k) == 0,
        m >= 0 ==> carries(group, q, m) && max_over(group, vals, q, k) == vals[m],
    decreases k,
{
    if k == 0 {
        -1
    } else if carries(group, q, k - 1) && vals[k - 1] > max_over(group, vals, q, k - 1) {
        k - 1
    } else {
        greatest_is_attained(group, vals, q, k - 1)
    }
}

proof fn least_is_below(
    group: Seq<Option<usize>>,
    vals: Seq<int>,
    q: int,
    k: int,
    start: int,
    r: int,
)
    requires
        0 <= r < k,
        carries(group, q, r),
    ensures
        min_over(group, vals, q, k, start) <= vals[r],
    decreases k,
{
    if r < k - 1 {
        least_is_below(group, vals, q, k - 1, start, r);
    }
}

proof fn greatest_is_above(group: Seq<Option<usize>>, vals: Seq<int>, q: int, k: int, r: int)
    requires
        0 <= r < k,
        carries(group, q, r),
    ensures
        max_over(group, vals, q, k) >= vals[r],
    decreases k,
{
    if r < k - 1 {
        greatest_is_above(group, vals, q, k - 1, r);
    }
}

/// Colours count in a refinement with colours, as they were measured; in one
/// without, no colour distance is known.
pub proof fn colors_count_where_asked<
    M: Fn(&AdjacentStats, &Region, &Region) -> BoundaryMeasure,
>(
    measure: M,
    pairs: Seq<AdjacentStats>,
    regions: Seq<Region>,
    colors: bool,
    measures: Seq<BoundaryMeasure>,
    k: int,
)
    requires
        measured(measure, colors, pairs, regions, measures),
        0 <= k < pairs.len(),
    ensures
        colors ==> call_ensures(
            measure,
            (&pairs[k], &regions[pairs[k].a as int], &regions[pairs[k].b as int]),
            measures[k],
        ),
        !colors ==> measures[k].lab is None && exists|m: BoundaryMeasure|
            #[trigger] call_ensures(
                measure,
                (&pairs[k], &regions[pairs[k].a as int], &regions[pairs[k].b as int]),
                m,
            ) && measures[k].edge == m.edge && measures[k].score == m.score,
{
    assert(measured_as(
        measure,
        colors,
        pairs[k],
        regions[pairs[k].a as int],
        regions[pairs[k].b as int],
        measures[k],
    ));
}

/// Merging keeps the total area: every region's area goes into exactly one
/// merged region.
pub proof fn merge_keeps_area(
    out: Seq<Region>,
    regions: Seq<Region>,
    numbers: Seq<usize>,
    width: u32,
    height: u32,
)
    requires
        numbers.len() == regions.len(),
        forall|r: int| #![trigger numbers[r]] 0 <= r < numbers.len() ==> numbers[r] < out.len(),
        forall|q: int|
            #![trigger out[q]]
            0 <= q < out.len() ==> combines(
                out[q],
                regions,
                membership(numbers),
                q,
                width,
                height,
                regions.len() as int,
            ),
    ensures
        total_area(out) == total_area(regions),
{
    let n = regions.len() as int;
    let m = out.len() as int;
    let group = membership(numbers);
    let f = fields(regions);
    let column = Seq::new(out.len(), |q: int| total_of(group, f.area, q, n));
    assert(fields(out).area =~= column) by {
        assert forall|q: int| 0 <= q < m implies fields(out).area[q] == column[q] by {
            assert(combines(out[q], regions, group, q, width, height, n));
        }
    }
    totals_add_up(group, f.area, m, n);
    sum_of_totals(group, f.area, m, n, column);
}

/// Sum over the groups below `m` of their totals.
spec fn totals_sum(group: Seq<Option<usize>>, vals: Seq<int>, m: int, k: int) -> int
    decreases m,
{
    if m <= 0 {
        0
    } else {
        totals_sum(group, vals, m - 1, k) + total_of(group, vals, m - 1, k)
    }
}

proof fn sum_of_totals(
    group: Seq<Option<usize>>,
    vals: Seq<int>,
    m: int,
    k: int,
    column: Seq<int>,
)
    requires
        0 <= m <= column.len(),
        forall|q: int| 0 <= q < m ==> #[trigger] column[q] == total_of(group, vals, q, k),
    ensures
        sum_to(column, m) == totals_sum(group, vals, m, k),
    decreases m,
{
    if m > 0 {
        sum_of_totals(group, vals, m - 1, k, column);
    }
}

proof fn totals_add_up(group: Seq<Option<usize>>, vals: Seq<int>, m: int, k: int)
    requires
        0 <= m,
        0 <= k <= group.len(),
        forall|i: int|
            #![trigger group[i]]
            0 <= i < k ==> group[i] is Some && group[i]->Some_0 < m,
    ensures
        totals_sum(group, vals, m, k) == sum_to(vals, k),
    decreases k,
{
    if k > 0 {
        totals_add_up(group, vals, m, k - 1);
        assert(group[k - 1] is Some && group[k - 1]->Some_0 < m);
        totals_one_more(group, vals, m, k, group[k - 1]->Some_0 as int);
    } else {
        totals_none(group, vals, m);
    }
}

proof fn totals_none(group: Seq<Option<usize>>, vals: Seq<int>, m: int)
    ensures
        totals_sum(group, vals, m, 0) == 0,
    decreases m,
{
    if m > 0 {
        totals_none(group, vals, m - 1);
    }
}

proof fn totals_one_more(group: Seq<Option<usize>>, vals: Seq<int>, m: int, k: int, own: int)
    requires
        0 < k <= group.len(),
        group[k - 1] is Some,
        group[k - 1]->Some_0 == own,
    ensures
        totals_sum(group, vals, m, k) == totals_sum(group, vals, m, k - 1) + if own < m {
            vals[k - 1]
        } else {
            0
        },
    decreases m,
{
    if m > 0 {
        totals_one_more(group, vals, m - 1, k, own);
    }
}

/// The regions are numbered in order, the labels name them, and each region's area
/// is the number of pixels that carry its label.
pub open spec fn is_region_map(regions: Seq<Region>, labels: Seq<Option<usize>>) -> bool {
    &&& labels_within(labels, regions.len() as int)
    &&& forall|r: int|
        #![trigger regions[r]]
        0 <= r < regions.len() ==> regions[r].id == r && regions[r].area == area_of(
            labels,
            r,
            labels.len() as int,
        )
}

proof fn area_sums_agree(regions: Seq<Region>, labels: Seq<Option<usize>>, m: int)
    requires
        0 <= m <= regions.len(),
        forall|r: int|
            #![trigger regions[r]]
            0 <= r < regions.len() ==> regions[r].area == area_of(labels, r, labels.len() as int),
    ensures
        sum_to(fields(regions).area, m) == areas_sum(labels, m, labels.len() as int),
    decreases m,
{
    if m > 0 {
        area_sums_agree(regions, labels, m - 1);
        assert(fields(regions).area[m - 1] == regions[m - 1].area);
    }
}

/// The areas of a region map add up to the number of labelled pixels.
pub proof fn region_map_area(regions: Seq<Region>, labels: Seq<Option<usize>>)
    requires
        is_region_map(regions, labels),
    ensures
        total_area(regions) == labelled(labels, labels.len() as int),
{
    area_sums_agree(regions, labels, regions.len() as int);
    areas_add_up(labels, regions.len() as int, labels.len() as int);
}

/// Adding one label: the counts of all labels below the new ones stay, and the new
/// ones count what is added.
proof fn added_counts(
    before: Seq<Option<usize>>,
    map: Seq<Option<usize>>,
    next: Seq<Option<usize>>,
    base: int,
    p: int,
    k: int,
)
    requires
        0 <= k <= before.len(),
        map.len() == before.len(),
        next.len() == before.len(),
        0 <= base,
        forall|i: int|
            #![trigger before[i]]
            0 <= i < k && before[i] is Some ==> before[i]->Some_0 < base,
        forall|i: int| 0 <= i < k && #[trigger] map[i] is Some ==> before[i] is None,
        forall|i: int|
            #![trigger next[i]]
            0 <= i < k ==> match map[i] {
                Some(q) => next[i] is Some && next[i]->Some_0 == base + q,
                None => next[i] == before[i],
            },
    ensures
        p < base ==> area_of(next, p, k) == area_of(before, p, k),
        p >= base ==> area_of(next, p, k) == area_of(map, p - base, k),
    decreases k,
{
    if k > 0 {
        added_counts(before, map, next, base, p, k - 1);
        assert(map[k - 1] is Some ==> before[k - 1] is None);
        assert(before[k - 1] is Some ==> before[k - 1]->Some_0 < base);
        assert(match map[k - 1] {
            Some(q) => next[k - 1] is Some && next[k - 1]->Some_0 == base + q,
            None => next[k - 1] == before[k - 1],
        });
    }
}

/// What splitting adds to the label map for region `r`, numbered from zero.
spec fn own_numbers<D: Fn(Moments, Moments) -> Scalar>(
    r: Region,
    labels: Seq<Option<usize>>,
    edge: Seq<Scalar>,
    limit: Scalar,
    min_area: int,
    w: int,
    distance: D,
) -> Seq<Option<usize>> {
    if splits(labels, r.id as int, edge, limit, min_area, w) {
        split_labels(r, labels, edge, limit, min_area, w, distance)
    } else {
        Seq::new(
            labels.len(),
            |i: int|
                if carries(labels, r.id as int, i) {
                    Some(0usize)
                } else {
                    None
                },
        )
    }
}

proof fn whole_is_counted(labels: Seq<Option<usize>>, map: Seq<Option<usize>>, r: int, k: int)
    requires
        0 <= k <= labels.len(),
        map.len() == labels.len(),
        forall|i: int|
            #![trigger map[i]]
            0 <= i < k ==> map[i] == if carries(labels, r, i) {
                Some(0usize)
            } else {
                None
            },
    ensures
        area_of(map, 0, k) == area_of(labels, r, k),
    decreases k,
{
    if k > 0 {
        whole_is_counted(labels, map, r, k - 1);
        assert(map[k - 1] == if carries(labels, r, k - 1) {
            Some(0usize)
        } else {
            None
        });
    }
}

/// Splitting the first `k` regions of a region map gives a region map of pixels of
/// these regions; of all of them, where all distances are numbers below the
/// greatest.
proof fn split_map<D: Fn(Moments, Moments) -> Scalar>(
    regions: Seq<Region>,
    labels: Seq<Option<usize>>,
    edge: Seq<Scalar>,
    limit: Scalar,
    min_area: int,
    w: int,
    distance: D,
    k: int,
)
    requires
        w > 0 || labels.len() == 0,
        labels.len() <= usize::MAX,
        is_region_map(regions, labels),
        0 <= k <= regions.len(),
        all_split(regions, labels, edge, limit, min_area, w, distance, k).len() <= usize::MAX,
    ensures
        ({
            let out = all_split(regions, labels, edge, limit, min_area, w, distance, k);
            let map = all_relabelled(regions, labels, edge, limit, min_area, w, distance, k);
            &&& map.len() == labels.len()
            &&& is_region_map(out, map)
            &&& forall|i: int|
                #![trigger map[i]]
                0 <= i < labels.len() && map[i] is Some ==> labels[i] is Some && labels[i]->Some_0
                    < k
            &&& all_near(distance) ==> forall|i: int|
                #![trigger map[i]]
                0 <= i < labels.len() && labels[i] is Some && labels[i]->Some_0 < k ==> map[i] is Some
        }),
    decreases k,
{
    let n = labels.len() as int;
    let next = all_relabelled(regions, labels, edge, limit, min_area, w, distance, k);
    let out = all_split(regions, labels, edge, limit, min_area, w, distance, k);
    if k == 0 {
        assert(out.len() == 0);
    } else {
        let before_out = all_split(regions, labels, edge, limit, min_area, w, distance, k - 1);
        let before = all_relabelled(regions, labels, edge, limit, min_area, w, distance, k - 1);
        let r = regions[k - 1];
        let subs = split_regions(r, labels, edge, limit, min_area, w, distance);
        let base = before_out.len() as int;
        assert(out.len() == base + subs.len());
        split_map(regions, labels, edge, limit, min_area, w, distance, k - 1);
        let map = own_numbers(r, labels, edge, limit, min_area, w, distance);
        let parted = splits(labels, r.id as int, edge, limit, min_area, w);
        assert(r.id == k - 1);
        assert(parted <==> subs.len() > 1);
        assert forall|i: int| 0 <= i < n implies {
            &&& #[trigger] map[i] is Some ==> carries(labels, k - 1, i) && map[i]->Some_0
                < subs.len()
            &&& all_near(distance) && carries(labels, k - 1, i) ==> map[i] is Some
            &&& map[i] is Some ==> before[i] is None
            &&& match map[i] {
                Some(q) => next[i] is Some && next[i]->Some_0 == base + q,
                None => next[i] == before[i],
            }
        } by {
            if parted {
                split_labels_within(r, labels, edge, limit, min_area, w, distance, i);
                if all_near(distance) {
                    split_keeps_pixels(r, labels, edge, limit, min_area, w, distance, i);
                }
            }
            assert(before[i] is Some ==> labels[i] is Some && labels[i]->Some_0 < k - 1);
        }
        assert forall|p: int| #![trigger out[p]] 0 <= p < out.len() implies out[p].id == p
            && out[p].area == area_of(next, p, n) by {
            added_counts(before, map, next, base, p, n);
            if p < base {
                assert(out[p] == before_out[p]);
                assert(before_out[p].area == area_of(before, p, n));
            } else {
                assert(out[p] == with_id(subs[p - base], p));
                if parted {
                    let q = p - base;
                    split_areas_count(r, labels, edge, limit, min_area, w, distance, q);
                } else {
                    whole_is_counted(labels, map, k - 1, n);
                    assert(subs[0] == r);
                }
            }
        }
        assert forall|i: int| #![trigger next[i]] 0 <= i < n && next[i] is Some implies
            next[i]->Some_0 < out.len() && labels[i] is Some && labels[i]->Some_0 < k by {
            assert(map[i] is Some ==> carries(labels, k - 1, i) && map[i]->Some_0 < subs.len());
            assert(before[i] is Some ==> labels[i] is Some && labels[i]->Some_0 < k - 1);
        }
        if all_near(distance) {
            assert forall|i: int|
                #![trigger next[i]]
                0 <= i < n && labels[i] is Some && labels[i]->Some_0 < k implies next[i] is Some by {
                assert(map[i] is Some || !carries(labels, k - 1, i));
                if labels[i]->Some_0 < k - 1 {
                    assert(before[i] is Some);
                }
            }
        }
    }
}

/// Splitting the regions of a region map gives a region map; where all distances
/// are numbers below the greatest, exactly the pixels with a label keep one, and the
/// total area stays.
pub proof fn splitting_keeps_pixels<D: Fn(Moments, Moments) -> Scalar>(
    regions: Seq<Region>,
    labels: Seq<Option<usize>>,
    edge: Seq<Scalar>,
    limit: Scalar,
    min_area: int,
    w: int,
    distance: D,
)
    requires
        w > 0 || labels.len() == 0,
        labels.len() <= usize::MAX,
        is_region_map(regions, labels),
        all_split(
            regions,
            labels,
            edge,
            limit,
            min_area,
            w,
            distance,
            regions.len() as int,
        ).len() <= usize::MAX,
    ensures
        ({
            let k = regions.len() as int;
            let out = all_split(regions, labels, edge, limit, min_area, w, distance, k);
            let map = all_relabelled(regions, labels, edge, limit, min_area, w, distance, k);
            &&& map.len() == labels.len()
            &&& is_region_map(out, map)
            &&& all_near(distance) ==> {
                &&& forall|i: int|
                    #![trigger map[i]]
                    0 <= i < labels.len() ==> (map[i] is Some <==> labels[i] is Some)
                &&& total_area(out) == total_area(regions)
            }
        }),
{
    let k = regions.len() as int;
    let out = all_split(regions, labels, edge, limit, min_area, w, distance, k);
    let map = all_relabelled(regions, labels, edge, limit, min_area, w, distance, k);
    split_map(regions, labels, edge, limit, min_area, w, distance, k);
    if all_near(distance) {
        assert forall|i: int| #![trigger map[i]] 0 <= i < labels.len() implies (map[i] is Some
            <==> labels[i] is Some) by {
            assert(labels[i] is Some ==> labels[i]->Some_0 < k);
        }
        region_map_area(out, map);
        region_map_area(regions, labels);
        equally_labelled(map, labels, labels.len() as int);
    }
}

proof fn equally_labelled(a: Seq<Option<usize>>, b: Seq<Option<usize>>, k: int)
    requires
        0 <= k <= a.len(),
        k <= b.len(),
        forall|i: int| #![trigger a[i]] 0 <= i < k ==> (a[i] is Some <==> b[i] is Some),
    ensures
        labelled(a, k) == labelled(b, k),
    decreases k,
{
    if k > 0 {
        equally_labelled(a, b, k - 1);
        assert(a[k - 1] is Some <==> b[k - 1] is Some);
    }
}

/// The areas that the labels below `k` give.
spec fn counts(labels: Seq<Option<usize>>, m: int, k: int) -> Seq<int> {
    Seq::new(m as nat, |r: int| area_of(labels, r, k) as int)
}

/// Counting pixels by group is counting them by their groups' labels.
proof fn grouped_counts(
    labels: Seq<Option<usize>>,
    numbers: Seq<usize>,
    q: int,
    k: int,
)
    requires
        0 <= k <= labels.len(),
        labels_within(labels, numbers.len() as int),
    ensures
        total_of(
            membership(numbers),
            counts(labels, numbers.len() as int, k),
            q,
            numbers.len() as int,
        ) == area_of(relabelled(labels, numbers), q, k),
    decreases k,
{
    let m = numbers.len() as int;
    let group = membership(numbers);
    if k == 0 {
        nothing_counted(group, counts(labels, m, 0), q, m);
    } else {
        grouped_counts(labels, numbers, q, k - 1);
        let own = match labels[k - 1] {
            Some(r) => r as int,
            None => -1,
        };
        assert(labels[k - 1] is Some ==> labels[k - 1]->Some_0 < m);
        one_more_counted(group, counts(labels, m, k - 1), counts(labels, m, k), q, own, m);
    }
}

proof fn nothing_counted(group: Seq<Option<usize>>, vals: Seq<int>, q: int, k: int)
    requires
        0 <= k <= vals.len(),
        forall|r: int| #![trigger vals[r]] 0 <= r < vals.len() ==> vals[r] == 0,
    ensures
        total_of(group, vals, q, k) == 0,
    decreases k,
{
    if k > 0 {
        nothing_counted(group, vals, q, k - 1);
        assert(vals[k - 1] == 0);
    }
}

proof fn one_more_counted(
    group: Seq<Option<usize>>,
    a: Seq<int>,
    b: Seq<int>,
    q: int,
    own: int,
    k: int,
)
    requires
        0 <= k <= a.len(),
        k <= b.len(),
        forall|r: int|
            #![trigger b[r]]
            0 <= r < k ==> b[r] == a[r] + if r == own {
                1int
            } else {
                0
            },
    ensures
        total_of(group, b, q, k) == total_of(group, a, q, k) + if 0 <= own < k && carries(
            group,
            q,
            own,
        ) {
            1int
        } else {
            0
        },
    decreases k,
{
    if k > 0 {
        one_more_counted(group, a, b, q, own, k - 1);
        assert(b[k - 1] == a[k - 1] + if k - 1 == own {
            1int
        } else {
            0
        });
    }
}

/// Merging the regions of a region map gives a region map of the same pixels.
pub proof fn merging_keeps_pixels(
    out: Seq<Region>,
    out_labels: Seq<Option<usize>>,
    numbers: Seq<usize>,
    regions: Seq<Region>,
    labels: Seq<Option<usize>>,
    pairs: Seq<AdjacentStats>,
    measures: Seq<BoundaryMeasure>,
    width: u32,
    height: u32,
    lim: RefineLimits,
)
    requires
        is_region_map(regions, labels),
        merge_outcome(
            out,
            out_labels,
            numbers,
            regions,
            labels,
            pairs,
            measures,
            width,
            height,
            lim,
        ),
    ensures
        is_region_map(out, out_labels),
        out_labels.len() == labels.len(),
        forall|i: int|
            #![trigger out_labels[i]]
            0 <= i < labels.len() ==> (out_labels[i] is Some <==> labels[i] is Some),
        total_area(out) == total_area(regions),
{
    let n = labels.len() as int;
    let m = regions.len() as int;
    assert forall|i: int| #![trigger out_labels[i]] 0 <= i < n && out_labels[i] is Some implies
        out_labels[i]->Some_0 < out.len() by {
        assert(labels[i] is Some && labels[i]->Some_0 < m);
        let r = labels[i]->Some_0 as int;
        assert(numbers[r] < out.len());
    }
    assert(fields(regions).area =~= counts(labels, m, n)) by {
        assert forall|r: int| 0 <= r < m implies fields(regions).area[r] == counts(labels, m, n)[r] by {
            assert(regions[r].area == area_of(labels, r, n));
        }
    }
    assert forall|q: int| #![trigger out[q]] 0 <= q < out.len() implies out[q].id == q
        && out[q].area == area_of(out_labels, q, n) by {
        assert(combines(out[q], regions, membership(numbers), q, width, height, m));
        grouped_counts(labels, numbers, q, n);
    }
    merge_keeps_area(out, regions, numbers, width, height);
}

/// Refining a region map gives a region map; where all distances are numbers below
/// the greatest, exactly the pixels with a label keep one, and the total area stays.
pub proof fn refining_keeps_pixels<
    M: Fn(&AdjacentStats, &Region, &Region) -> BoundaryMeasure,
    D: Fn(Moments, Moments) -> Scalar,
>(
    out: Seq<Region>,
    out_labels: Seq<Option<usize>>,
    regions: Seq<Region>,
    labels: Seq<Option<usize>>,
    edge: Seq<Scalar>,
    width: u32,
    height: u32,
    lim: RefineLimits,
    colors: bool,
    measure: M,
    distance: D,
)
    requires
        frame(width, height, labels.len() as int),
        is_region_map(regions, labels),
        out.len() <= usize::MAX,
        is_refinement(
            out,
            out_labels,
            regions,
            labels,
            edge,
            width,
            height,
            lim,
            colors,
            measure,
            distance,
        ),
    ensures
        is_region_map(out, out_labels),
        out_labels.len() == labels.len(),
        all_near(distance) ==> {
            &&& forall|i: int|
                #![trigger out_labels[i]]
                0 <= i < labels.len() ==> (out_labels[i] is Some <==> labels[i] is Some)
            &&& total_area(out) == total_area(regions)
        },
{
    let st = choose|st: Stages|
        {
            &&& #[trigger] refined_by(
                st,
                out,
                out_labels,
                regions,
                labels,
                edge,
                width,
                height,
                lim,
                distance,
            )
            &&& measured(measure, colors, st.pairs, regions, st.measures)
        };
    merging_keeps_pixels(
        st.merged,
        st.merged_labels,
        st.numbers,
        regions,
        labels,
        st.pairs,
        st.measures,
        width,
        height,
        lim,
    );
    width_is_positive(width, height, labels.len() as int);
    splitting_keeps_pixels(
        st.merged,
        st.merged_labels,
        edge,
        lim.edge_split,
        lim.min_region_area as int,
        width as int,
        distance,
    );
}

proof fn splitting_grows<D: Fn(Moments, Moments) -> Scalar>(
    regions: Seq<Region>,
    labels: Seq<Option<usize>>,
    edge: Seq<Scalar>,
    limit: Scalar,
    min_area: int,
    w: int,
    distance: D,
    j: int,
    k: int,
)
    requires
        0 <= j <= k,
    ensures
        all_split(regions, labels, edge, limit, min_area, w, distance, j).len() <= all_split(
            regions,
            labels,
            edge,
            limit,
            min_area,
            w,
            distance,
            k,
        ).len(),
    decreases k,
{
    if j < k {
        splitting_grows(regions, labels, edge, limit, min_area, w, distance, j, k - 1);
    }
}

/// A pixel of region `r` gets a number after those of the regions before, by its
/// part where the region splits.
proof fn relabelled_at<D: Fn(Moments, Moments) -> Scalar>(
    regions: Seq<Region>,
    labels: Seq<Option<usize>>,
    edge: Seq<Scalar>,
    limit: Scalar,
    min_area: int,
    w: int,
    distance: D,
    k: int,
    r: int,
    i: int,
)
    requires
        w > 0 || labels.len() == 0,
        labels.len() <= usize::MAX,
        is_region_map(regions, labels),
        0 <= r < k <= regions.len(),
        0 <= i < labels.len(),
        labels[i] is Some,
        labels[i]->Some_0 == r,
        all_split(regions, labels, edge, limit, min_area, w, distance, k).len() <= usize::MAX,
    ensures
        ({
            let got = all_relabelled(regions, labels, edge, limit, min_area, w, distance, k)[i];
            let base = all_split(regions, labels, edge, limit, min_area, w, distance, r).len();
            let subs = split_regions(regions[r], labels, edge, limit, min_area, w, distance);
            let map = split_labels(regions[r], labels, edge, limit, min_area, w, distance);
            if subs.len() <= 1 {
                got is Some && got->Some_0 == base
            } else {
                match map[i] {
                    Some(q) => got is Some && got->Some_0 == base + q && q < subs.len(),
                    None => got is None,
                }
            }
        }),
    decreases k,
{
    splitting_grows(regions, labels, edge, limit, min_area, w, distance, k - 1, k);
    let last = regions[k - 1];
    assert(last.id == k - 1);
    split_labels_within(last, labels, edge, limit, min_area, w, distance, i);
    if r < k - 1 {
        relabelled_at(regions, labels, edge, limit, min_area, w, distance, k - 1, r, i);
    } else {
        split_map(regions, labels, edge, limit, min_area, w, distance, k - 1);
        let before = all_relabelled(regions, labels, edge, limit, min_area, w, distance, k - 1);
        assert(before[i] is None);
        assert(all_split(regions, labels, edge, limit, min_area, w, distance, k).len()
            == all_split(regions, labels, edge, limit, min_area, w, distance, k - 1).len()
            + split_regions(last, labels, edge, limit, min_area, w, distance).len());
    }
}

/// Pixels of different merged regions never come together again by splitting.
pub proof fn splitting_keeps_apart<D: Fn(Moments, Moments) -> Scalar>(
    st: Stages,
    out: Seq<Region>,
    out_labels: Seq<Option<usize>>,
    regions: Seq<Region>,
    labels: Seq<Option<usize>>,
    edge: Seq<Scalar>,
    width: u32,
    height: u32,
    lim: RefineLimits,
    distance: D,
    i: int,
    j: int,
)
    requires
        frame(width, height, labels.len() as int),
        is_region_map(regions, labels),
        out.len() <= usize::MAX,
        refined_by(
            st,
            out,
            out_labels,
            regions,
            labels,
            edge,
            width,
            height,
            lim,
            distance,
        ),
        0 <= i < labels.len(),
        0 <= j < labels.len(),
        labels[i] is Some,
        labels[j] is Some,
        st.numbers[labels[i]->Some_0 as int] != st.numbers[labels[j]->Some_0 as int],
        out_labels[i] is Some,
    ensures
        out_labels[i] != out_labels[j],
{
    stages_are_maps(st, out, out_labels, regions, labels, edge, width, height, lim, distance);
    let m = st.merged.len() as int;
    let w = width as int;
    let least = lim.min_region_area as int;
    let a = st.numbers[labels[i]->Some_0 as int] as int;
    let b = st.numbers[labels[j]->Some_0 as int] as int;
    assert(labels[i]->Some_0 < regions.len() && labels[j]->Some_0 < regions.len());
    relabelled_at(
        st.merged,
        st.merged_labels,
        edge,
        lim.edge_split,
        least,
        w,
        distance,
        m,
        a,
        i,
    );
    relabelled_at(
        st.merged,
        st.merged_labels,
        edge,
        lim.edge_split,
        least,
        w,
        distance,
        m,
        b,
        j,
    );
    let lower = if a < b {
        a
    } else {
        b
    };
    let upper = if a < b {
        b
    } else {
        a
    };
    splitting_grows(
        st.merged,
        st.merged_labels,
        edge,
        lim.edge_split,
        least,
        w,
        distance,
        lower + 1,
        upper,
    );
    assert(all_split(
        st.merged,
        st.merged_labels,
        edge,
        lim.edge_split,
        least,
        w,
        distance,
        lower + 1,
    ).len() == all_split(
        st.merged,
        st.merged_labels,
        edge,
        lim.edge_split,
        least,
        w,
        distance,
        lower,
    ).len() + split_regions(
        st.merged[lower],
        st.merged_labels,
        edge,
        lim.edge_split,
        least,
        w,
        distance,
    ).len());
}

proof fn stages_are_maps<D: Fn(Moments, Moments) -> Scalar>(
    st: Stages,
    out: Seq<Region>,
    out_labels: Seq<Option<usize>>,
    regions: Seq<Region>,
    labels: Seq<Option<usize>>,
    edge: Seq<Scalar>,
    width: u32,
    height: u32,
    lim: RefineLimits,
    distance: D,
)
    requires
        frame(width, height, labels.len() as int),
        is_region_map(regions, labels),
        refined_by(
            st,
            out,
            out_labels,
            regions,
            labels,
            edge,
            width,
            height,
            lim,
            distance,
        ),
    ensures
        width > 0 || labels.len() == 0,
        is_region_map(st.merged, st.merged_labels),
        st.merged_labels.len() == labels.len(),
        forall|i: int|
            #![trigger labels[i]]
            0 <= i < labels.len() && labels[i] is Some ==> st.merged_labels[i] is Some
                && st.merged_labels[i]->Some_0 == st.numbers[labels[i]->Some_0 as int]
                && st.merged_labels[i]->Some_0 < st.merged.len(),
{
    width_is_positive(width, height, labels.len() as int);
    merging_keeps_pixels(
        st.merged,
        st.merged_labels,
        st.numbers,
        regions,
        labels,
        st.pairs,
        st.measures,
        width,
        height,
        lim,
    );
    assert forall|i: int|
        #![trigger labels[i]]
        0 <= i < labels.len() && labels[i] is Some implies st.merged_labels[i] is Some
        && st.merged_labels[i]->Some_0 == st.numbers[labels[i]->Some_0 as int]
        && st.merged_labels[i]->Some_0 < st.merged.len() by {
        assert(labels[i]->Some_0 < regions.len());
        assert(st.merged_labels[i] is Some);
    }
}

/// Two large parts of one merged region that strong pixels keep apart are different
/// regions after refinement.
pub proof fn divided_parts_become_regions<D: Fn(Moments, Moments) -> Scalar>(
    st: Stages,
    out: Seq<Region>,
    out_labels: Seq<Option<usize>>,
    regions: Seq<Region>,
    labels: Seq<Option<usize>>,
    edge: Seq<Scalar>,
    width: u32,
    height: u32,
    lim: RefineLimits,
    distance: D,
    strong: int,
    i: int,
    j: int,
)
    requires
        frame(width, height, labels.len() as int),
        is_region_map(regions, labels),
        labels.len() <= usize::MAX,
        out.len() <= usize::MAX,
        refined_by(
            st,
            out,
            out_labels,
            regions,
            labels,
            edge,
            width,
            height,
            lim,
            distance,
        ),
        0 <= strong < labels.len(),
        0 <= i < labels.len(),
        0 <= j < labels.len(),
        labels[i] is Some,
        st.merged_labels[strong] == st.merged_labels[i],
        lim.edge_split.le(edge[strong]),
        ({
            let q = st.merged_labels[i]->Some_0 as int;
            let w = width as int;
            let calm = calm_pixels(st.merged_labels, q, edge, lim.edge_split, w);
            let p = parts(st.merged_labels, q, edge, lim.edge_split, w);
            let n = labels.len() as int;
            &&& calm[i]
            &&& calm[j]
            &&& p[i] != p[j]
            &&& area_of(p, p[i]->Some_0 as int, n) >= lim.min_region_area
            &&& area_of(p, p[j]->Some_0 as int, n) >= lim.min_region_area
        }),
    ensures
        out_labels[i] is Some,
        out_labels[j] is Some,
        out_labels[i] != out_labels[j],
{
    stages_are_maps(st, out, out_labels, regions, labels, edge, width, height, lim, distance);
    let m = st.merged.len() as int;
    let w = width as int;
    let least = lim.min_region_area as int;
    assert(labels[i] is Some);
    let q = st.merged_labels[i]->Some_0 as int;
    assert(st.merged[q].id == q);
    assert(st.merged_labels[j] is Some && st.merged_labels[j]->Some_0 == q);
    large_parts_are_told_apart(
        st.merged[q],
        st.merged_labels,
        edge,
        lim.edge_split,
        least,
        w,
        distance,
        strong,
        i,
        j,
    );
    relabelled_at(
        st.merged,
        st.merged_labels,
        edge,
        lim.edge_split,
        least,
        w,
        distance,
        m,
        q,
        i,
    );
    relabelled_at(
        st.merged,
        st.merged_labels,
        edge,
        lim.edge_split,
        least,
        w,
        distance,
        m,
        q,
        j,
    );
}

/// Neighbouring pixels whose regions are parted only by an edge at or below the
/// merging limit end up in one region, in a picture with no edge at or above the
/// splitting limit.
pub proof fn weakly_parted_neighbours_join<
    M: Fn(&AdjacentStats, &Region, &Region) -> BoundaryMeasure,
    D: Fn(Moments, Moments) -> Scalar,
>(
    out: Seq<Region>,
    out_labels: Seq<Option<usize>>,
    regions: Seq<Region>,
    labels: Seq<Option<usize>>,
    edge: Seq<Scalar>,
    width: u32,
    height: u32,
    lim: RefineLimits,
    colors: bool,
    measure: M,
    distance: D,
    i: int,
    j: int,
)
    requires
        frame(width, height, labels.len() as int),
        is_region_map(regions, labels),
        labels.len() <= usize::MAX,
        regions.len() <= usize::MAX,
        out.len() <= usize::MAX,
        is_refinement(
            out,
            out_labels,
            regions,
            labels,
            edge,
            width,
            height,
            lim,
            colors,
            measure,
            distance,
        ),
        0 <= i < labels.len(),
        0 <= j < labels.len(),
        (j == i + 1 && j % (width as int) != 0) || j == i + width,
        labels[i] is Some,
        labels[j] is Some,
        labels[i] != labels[j],
        forall|p: AdjacentStats, m: BoundaryMeasure|
            #[trigger] call_ensures(
                measure,
                (&p, &regions[p.a as int], &regions[p.b as int]),
                m,
            ) && (labels[i] == Some(p.a) && labels[j] == Some(p.b) || labels[i] == Some(p.b)
                && labels[j] == Some(p.a)) ==> m.edge.le(lim.edge_merge),
        forall|x: int|
            #![trigger edge[x]]
            0 <= x < labels.len() ==> !lim.edge_split.le(edge[x]),
    ensures
        out_labels[i] is Some,
        out_labels[i] == out_labels[j],
{
    let st = choose|st: Stages|
        {
            &&& #[trigger] refined_by(
                st,
                out,
                out_labels,
                regions,
                labels,
                edge,
                width,
                height,
                lim,
                distance,
            )
            &&& measured(measure, colors, st.pairs, regions, st.measures)
        };
    stages_are_maps(st, out, out_labels, regions, labels, edge, width, height, lim, distance);
    let m = st.merged.len() as int;
    let w = width as int;
    let least = lim.min_region_area as int;
    let at = neighbours_are_listed(labels, w, st.pairs, i, j);
    let k = at.0;
    let p = st.pairs[k];
    assert(measured_as(
        measure,
        colors,
        p,
        regions[p.a as int],
        regions[p.b as int],
        st.measures[k],
    ));
    weak_boundary_melts(
        st.merged,
        st.merged_labels,
        st.numbers,
        regions,
        labels,
        st.pairs,
        st.measures,
        width,
        height,
        lim,
        k,
    );
    let q = st.merged_labels[i]->Some_0 as int;
    assert(labels[j] is Some);
    assert(st.merged_labels[j]->Some_0 == q);
    assert forall|x: int|
        #![trigger st.merged_labels[x]]
        0 <= x < st.merged_labels.len() && st.merged_labels[x] == Some(st.merged[q].id) implies
        !lim.edge_split.le(edge[x]) by {
    }
    quiet_region_stays_whole(
        st.merged[q],
        st.merged_labels,
        edge,
        lim.edge_split,
        least,
        w,
        distance,
    );
    relabelled_at(
        st.merged,
        st.merged_labels,
        edge,
        lim.edge_split,
        least,
        w,
        distance,
        m,
        q,
        i,
    );
    relabelled_at(
        st.merged,
        st.merged_labels,
        edge,
        lim.edge_split,
        least,
        w,
        distance,
        m,
        q,
        j,
    );
}

/// A region of another cluster than all its neighbours, of far or uncounted
/// colour and behind edges above the merging and splitting limits, shares no pixel's
/// region with any other after refinement.
pub proof fn strongly_parted_regions_stay_apart<
    M: Fn(&AdjacentStats, &Region, &Region) -> BoundaryMeasure,
    D: Fn(Moments, Moments) -> Scalar,
>(
    out: Seq<Region>,
    out_labels: Seq<Option<usize>>,
    regions: Seq<Region>,
    labels: Seq<Option<usize>>,
    edge: Seq<Scalar>,
    width: u32,
    height: u32,
    lim: RefineLimits,
    colors: bool,
    measure: M,
    distance: D,
    i: int,
    j: int,
)
    requires
        frame(width, height, labels.len() as int),
        is_region_map(regions, labels),
        labels.len() <= usize::MAX,
        regions.len() <= usize::MAX,
        out.len() <= usize::MAX,
        is_refinement(
            out,
            out_labels,
            regions,
            labels,
            edge,
            width,
            height,
            lim,
            colors,
            measure,
            distance,
        ),
        0 <= i < labels.len(),
        0 <= j < labels.len(),
        labels[i] is Some,
        labels[j] is Some,
        labels[i] != labels[j],
        out_labels[i] is Some,
        forall|p: AdjacentStats, m: BoundaryMeasure|
            #[trigger] call_ensures(
                measure,
                (&p, &regions[p.a as int], &regions[p.b as int]),
                m,
            ) && (labels[i] == Some(p.a) || labels[i] == Some(p.b)) ==> {
                &&& regions[p.a as int].cluster_id != regions[p.b as int].cluster_id
                &&& !colors || m.lab is None || (lim.small_color.lt(m.lab->Some_0)
                    && lim.color_merge.lt(m.lab->Some_0))
                &&& lim.edge_merge.lt(m.edge)
                &&& lim.edge_split.lt(m.edge)
            },
    ensures
        out_labels[i] != out_labels[j],
{
    let st = choose|st: Stages|
        {
            &&& #[trigger] refined_by(
                st,
                out,
                out_labels,
                regions,
                labels,
                edge,
                width,
                height,
                lim,
                distance,
            )
            &&& measured(measure, colors, st.pairs, regions, st.measures)
        };
    stages_are_maps(st, out, out_labels, regions, labels, edge, width, height, lim, distance);
    let q = labels[i]->Some_0 as int;
    let other = labels[j]->Some_0 as int;
    assert(q < regions.len() && other < regions.len());
    assert forall|k: int|
        #![trigger st.pairs[k]]
        0 <= k < st.pairs.len() && (st.pairs[k].a == q || st.pairs[k].b == q) implies {
        let a = regions[st.pairs[k].a as int];
        let b = regions[st.pairs[k].b as int];
        let m = st.measures[k];
        &&& a.cluster_id != b.cluster_id
        &&& m.lab is None || (lim.small_color.lt(m.lab->Some_0) && lim.color_merge.lt(
            m.lab->Some_0,
        ))
        &&& lim.edge_merge.lt(m.edge)
        &&& lim.edge_split.lt(m.edge)
    } by {
        let p = st.pairs[k];
        assert(measured_as(
            measure,
            colors,
            p,
            regions[p.a as int],
            regions[p.b as int],
            st.measures[k],
        ));
    }
    walled_region_stays_alone(
        st.merged,
        st.merged_labels,
        st.numbers,
        regions,
        labels,
        st.pairs,
        st.measures,
        width,
        height,
        lim,
        q,
        other,
    );
    splitting_keeps_apart(
        st,
        out,
        out_labels,
        regions,
        labels,
        edge,
        width,
        height,
        lim,
        distance,
        i,
        j,
    );
}

} // verus!
