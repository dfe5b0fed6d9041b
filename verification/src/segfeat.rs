//! Features of regions: what a segmentation says about foreground, background
//! and colour.

use vstd::prelude::*;
use crate::anime::{GrowLimits, RegionStats};
use crate::anime_merge::{MergeLimits, PairMeasure};
use crate::border::{border_mask, marked, marked_pixels, marked_within, on_border};
use crate::edge::{settles_finite, Around};
use crate::order::{
    key_order, key_order_exists, permutation_reaches, precedes, stable_order,
};
use crate::overlays::same_label;
use crate::quantile::{
    above, all_numbers, below, median_value, middle_rank_is_median, picked, ranked,
};
use crate::region::{
    area_of, beside, carries, frame, neighbour_coordinates, pixel_in_frame, Region,
};
use crate::sampling::{positives, sample_all};
use crate::scalar::{all_unit, clamp_unit, in_unit, unit, Scalar, ONE_BITS};
use crate::segment::{
    edges_of_image, is_segmentation, result_wf, segment, Contact, SegmentError, SegmentResult,
};

verus! {

/// What is known of a region.
#[derive(Clone, Copy, Debug, PartialEq, Eq)]
pub struct RegionFeature {
    pub id: usize,
    pub cluster_id: usize,
    pub area: usize,
    pub area_ratio: Scalar,
    pub border_ratio: Scalar,
    pub center_prior: Scalar,
    pub saliency_mean: Scalar,
    pub saliency_peak: Scalar,
    pub edge_mean: Scalar,
    pub border_color_similarity: Scalar,
    pub color_stability: Scalar,
    pub bg_probability: Scalar,
    pub subject_confidence: Scalar,
    pub color_score: Scalar,
    pub mean_rgb: [Scalar; 3],
}

/// A pixel of the map has a neighbour with another label.
pub open spec fn at_seam(labels: Seq<Option<usize>>, w: int, i: int) -> bool {
    exists|j: int| #[trigger] beside(w, labels.len() as int, i, j) && labels[j] != labels[i]
}

fn find_seam(labels: &[Option<usize>], w: u32, h: u32, i: usize) -> (r: bool)
    requires
        frame(w, h, labels@.len() as int),
        i < labels@.len(),
    ensures
        r == at_seam(labels@, w as int, i as int),
{
    let cur = labels[i];
    let n = labels.len();
    let ws = w as usize;
    proof {
        pixel_in_frame(w, h, n as int, i as int);
        neighbour_coordinates(w, h, n as int, i as int);
    }
    let x = i % ws;
    let ghost wi = w as int;
    if x > 0 && !same_label(labels[i - 1], cur) {
        assert(beside(wi, n as int, i as int, i - 1));
        return true;
    }
    if x + 1 < ws && !same_label(labels[i + 1], cur) {
        assert(beside(wi, n as int, i as int, i + 1));
        return true;
    }
    if i >= ws && !same_label(labels[i - ws], cur) {
        assert(beside(wi, n as int, i as int, i - ws));
        return true;
    }
    if n - i > ws && !same_label(labels[i + ws], cur) {
        assert(beside(wi, n as int, i as int, i + ws));
        return true;
    }
    false
}

/// The edge strength of a pixel, zero where there is none.
pub open spec fn edge_at(edges: Seq<Scalar>, i: int) -> Scalar {
    if i < edges.len() {
        edges[i]
    } else {
        Scalar { bits: 0 }
    }
}

/// The larger of a seam's mark and an edge's share.
pub open spec fn seam_value(seam: bool, share: Scalar) -> Scalar {
    let mark = if seam {
        Scalar { bits: ONE_BITS }
    } else {
        Scalar { bits: 0 }
    };
    if mark.lt(share) {
        share
    } else {
        mark
    }
}

/// `v` is the boundary strength of a pixel.
pub open spec fn seam_strength<F: Fn(Scalar) -> Scalar>(
    damp: F,
    labels: Seq<Option<usize>>,
    edges: Seq<Scalar>,
    w: int,
    i: int,
    v: Scalar,
) -> bool {
    exists|share: Scalar| #[trigger]
        call_ensures(damp, (edge_at(edges, i),), share) && v == seam_value(
            at_seam(labels, w, i),
            share,
        )
}

/// Strength of the boundary at each pixel: one where the label changes, else
/// what `damp` leaves of the edge strength.
pub fn build_boundary_map<F: Fn(Scalar) -> Scalar>(
    labels: &[Option<usize>],
    edges: &[Scalar],
    w: u32,
    h: u32,
    damp: &F,
) -> (map: Vec<Scalar>)
    requires
        frame(w, h, labels@.len() as int),
        forall|v: Scalar| #[trigger] call_requires(*damp, (v,)),
    ensures
        map@.len() == labels@.len(),
        forall|i: int|
            #![trigger map@[i]]
            0 <= i < map@.len() ==> seam_strength(*damp, labels@, edges@, w as int, i, map@[i]),
{
    let one = Scalar::new(ONE_BITS);
    let zero = Scalar::zero();
    let mut map: Vec<Scalar> = Vec::new();
    let mut i: usize = 0;
    while i < labels.len()
        invariant
            i <= labels@.len(),
            frame(w, h, labels@.len() as int),
            forall|v: Scalar| #[trigger] call_requires(*damp, (v,)),
            one == (Scalar { bits: ONE_BITS }),
            zero == (Scalar { bits: 0 }),
            map@.len() == i,
            forall|k: int|
                #![trigger map@[k]]
                0 <= k < i ==> seam_strength(*damp, labels@, edges@, w as int, k, map@[k]),
        decreases labels@.len() - i,
    {
        let edge: Scalar = if i < edges.len() {
            edges[i]
        } else {
            zero
        };
        assert(edge == edge_at(edges@, i as int));
        assert(call_requires(*damp, (edge,)));
        let share = damp(edge);
        let mark = if find_seam(labels, w, h, i) {
            one
        } else {
            zero
        };
        let v = if mark.less(&share) {
            share
        } else {
            mark
        };
        assert(seam_strength(*damp, labels@, edges@, w as int, i as int, v));
        map.push(v);
        i += 1;
    }
    map
}

/// `acc` sums up the pixels below `k` of region `r`, in order, from `start`;
/// each is added with whether it lies on the border and with its edge strength.
pub open spec fn summed_up<A, F: Fn(A, usize, bool, Scalar) -> A>(
    tally: F,
    start: A,
    labels: Seq<Option<usize>>,
    edges: Seq<Scalar>,
    w: u32,
    h: u32,
    band: int,
    r: int,
    k: int,
    acc: A,
) -> bool
    decreases k,
{
    if k <= 0 {
        acc == start
    } else if carries(labels, r, k - 1) {
        exists|before: A|
            {
                &&& #[trigger] call_ensures(
                    tally,
                    (
                        before,
                        (k - 1) as usize,
                        on_border(w, h, band, k - 1),
                        edge_at(edges, k - 1),
                    ),
                    acc,
                )
                &&& summed_up(tally, start, labels, edges, w, h, band, r, k - 1, before)
            }
    } else {
        summed_up(tally, start, labels, edges, w, h, band, r, k - 1, acc)
    }
}

/// Number of pixels below `k` of region `r` on the border.
pub open spec fn border_count(
    labels: Seq<Option<usize>>,
    w: u32,
    h: u32,
    band: int,
    r: int,
    k: int,
) -> nat
    decreases k,
{
    if k <= 0 {
        0
    } else {
        border_count(labels, w, h, band, r, k - 1) + if carries(labels, r, k - 1) && on_border(
            w,
            h,
            band,
            k - 1,
        ) {
            1nat
        } else {
            0
        }
    }
}

/// A region has no more pixels on the border than pixels.
pub proof fn border_within_area(
    labels: Seq<Option<usize>>,
    w: u32,
    h: u32,
    band: int,
    r: int,
    k: int,
)
    ensures
        border_count(labels, w, h, band, r, k) <= area_of(labels, r, k),
        area_of(labels, r, k) <= if k >= 0 {
            k
        } else {
            0
        },
    decreases k,
{
    if k > 0 {
        border_within_area(labels, w, h, band, r, k - 1);
    }
}

/// The width of the border band: at least one, at most the image.
pub open spec fn fitting_band(border_band: u32, w: u32, h: u32) -> int {
    let a = if border_band >= 1 {
        border_band as int
    } else {
        1
    };
    let ww = if w >= 1 {
        w as int
    } else {
        1
    };
    let hh = if h >= 1 {
        h as int
    } else {
        1
    };
    let b = if a <= ww {
        a
    } else {
        ww
    };
    if b <= hh {
        b
    } else {
        hh
    }
}

fn fit_band(border_band: u32, w: u32, h: u32) -> (b: u32)
    ensures
        b == fitting_band(border_band, w, h),
        b >= 1,
{
    let a: u32 = if border_band >= 1 {
        border_band
    } else {
        1
    };
    let ww: u32 = if w >= 1 {
        w
    } else {
        1
    };
    let hh: u32 = if h >= 1 {
        h
    } else {
        1
    };
    let b: u32 = if a <= ww {
        a
    } else {
        ww
    };
    if b <= hh {
        b
    } else {
        hh
    }
}

/// Sums over the pixels of a region: how many there are, how many lie on the
/// border, and what the caller adds up.
#[derive(Clone, Copy, Debug)]
pub struct Accum<A> {
    pub count: usize,
    pub border_count: usize,
    pub sums: A,
}

/// The sums of region `r` over the pixels below `k`.
pub open spec fn accumulated<A, F: Fn(A, usize, bool, Scalar) -> A>(
    tally: F,
    start: A,
    labels: Seq<Option<usize>>,
    edges: Seq<Scalar>,
    w: u32,
    h: u32,
    band: int,
    r: int,
    k: int,
    acc: Accum<A>,
) -> bool {
    &&& acc.count == area_of(labels, r, k)
    &&& acc.border_count == border_count(labels, w, h, band, r, k)
    &&& summed_up(tally, start, labels, edges, w, h, band, r, k, acc.sums)
}

/// Sums up the pixels of every region.
pub fn compute_region_stats<A: Copy, F: Fn(A, usize, bool, Scalar) -> A>(
    labels: &[Option<usize>],
    edges: &[Scalar],
    w: u32,
    h: u32,
    region_count: usize,
    border_band: u32,
    start: A,
    tally: &F,
) -> (sums: Vec<Accum<A>>)
    requires
        frame(w, h, labels@.len() as int),
        forall|a: A, i: usize, b: bool, e: Scalar| #[trigger]
            call_requires(*tally, (a, i, b, e)),
    ensures
        sums@.len() == region_count,
        forall|r: int|
            #![trigger sums@[r]]
            0 <= r < region_count ==> accumulated(
                *tally,
                start,
                labels@,
                edges@,
                w,
                h,
                fitting_band(border_band, w, h),
                r,
                labels@.len() as int,
                sums@[r],
            ),
{
    let band = fit_band(border_band, w, h);
    let ghost bi = band as int;
    let mask = border_mask(w, h, band);
    let mut sums: Vec<Accum<A>> = Vec::new();
    let mut r: usize = 0;
    while r < region_count
        invariant
            r <= region_count,
            sums@.len() == r,
            forall|q: int|
                #![trigger sums@[q]]
                0 <= q < r ==> accumulated(*tally, start, labels@, edges@, w, h, bi, q, 0, sums@[q]),
        decreases region_count - r,
    {
        sums.push(Accum { count: 0, border_count: 0, sums: start });
        r += 1;
    }
    let mut i: usize = 0;
    while i < labels.len()
        invariant
            i <= labels@.len(),
            frame(w, h, labels@.len() as int),
            forall|a: A, i: usize, b: bool, e: Scalar| #[trigger]
                call_requires(*tally, (a, i, b, e)),
            band == bi,
            band >= 1,
            mask@.len() == labels@.len(),
            forall|k: int|
                #![trigger mask@[k]]
                0 <= k < mask@.len() ==> mask@[k] == on_border(w, h, bi, k),
            sums@.len() == region_count,
            forall|q: int|
                #![trigger sums@[q]]
                0 <= q < region_count ==> accumulated(
                    *tally,
                    start,
                    labels@,
                    edges@,
                    w,
                    h,
                    bi,
                    q,
                    i as int,
                    sums@[q],
                ),
        decreases labels@.len() - i,
    {
        let ghost before = sums@;
        let ghost k = i + 1;
        match labels[i] {
            Some(rid) => {
                if rid < region_count {
                    let acc = sums[rid];
                    let bordering = mask[i];
                    proof {
                        border_within_area(labels@, w, h, bi, rid as int, i as int);
                        assert(accumulated(
                            *tally,
                            start,
                            labels@,
                            edges@,
                            w,
                            h,
                            bi,
                            rid as int,
                            i as int,
                            before[rid as int],
                        ));
                    }
                    let edge = if i < edges.len() {
                        edges[i]
                    } else {
                        Scalar::zero()
                    };
                    assert(edge == edge_at(edges@, i as int));
                    assert(call_requires(*tally, (acc.sums, i, bordering, edge)));
                    let next = tally(acc.sums, i, bordering, edge);
                    let extra: usize = if bordering {
                        1
                    } else {
                        0
                    };
                    sums.set(
                        rid,
                        Accum {
                            count: acc.count + 1,
                            border_count: acc.border_count + extra,
                            sums: next,
                        },
                    );
                    assert(carries(labels@, rid as int, i as int));
                    assert(summed_up(*tally, start, labels@, edges@, w, h, bi, rid as int, k, next));
                }
            },
            None => {},
        }
        assert forall|q: int|
            #![trigger sums@[q]]
            0 <= q < region_count implies accumulated(
            *tally,
            start,
            labels@,
            edges@,
            w,
            h,
            bi,
            q,
            k,
            sums@[q],
        ) by {
            assert(accumulated(*tally, start, labels@, edges@, w, h, bi, q, i as int, before[q]));
            assert(!carries(labels@, q, i as int) ==> sums@[q] == before[q]);
        }
        i += 1;
    }
    sums
}

/// The area that a region's features go by: the counted or the recorded one,
/// whichever is larger, and at least one.
pub open spec fn feature_area(count: int, recorded: int) -> int {
    let a = if count >= recorded {
        count
    } else {
        recorded
    };
    if a >= 1 {
        a
    } else {
        1
    }
}

/// `f` is built from the region with the sums of its own number, or with
/// `empty` where there are none.
pub open spec fn built<A, B: Fn(&Region, &Accum<A>, usize) -> RegionFeature>(
    build: B,
    sums: Seq<Accum<A>>,
    empty: Accum<A>,
    region: Region,
    f: RegionFeature,
) -> bool {
    let acc = if region.id < sums.len() {
        sums[region.id as int]
    } else {
        empty
    };
    call_ensures(
        build,
        (&region, &acc, feature_area(acc.count as int, region.area as int) as usize),
        f,
    )
}

/// Builds the features of every region; `build` gets the region, its sums and
/// its area.
pub fn build_region_features<A: Copy, B: Fn(&Region, &Accum<A>, usize) -> RegionFeature>(
    regions: &[Region],
    sums: &[Accum<A>],
    empty: Accum<A>,
    build: &B,
) -> (out: Vec<RegionFeature>)
    requires
        forall|r: &Region, a: &Accum<A>, n: usize| #[trigger] call_requires(*build, (r, a, n)),
    ensures
        out@.len() == regions@.len(),
        forall|i: int|
            #![trigger out@[i]]
            0 <= i < out@.len() ==> built(*build, sums@, empty, regions@[i], out@[i]),
{
    let mut out: Vec<RegionFeature> = Vec::new();
    let mut i: usize = 0;
    while i < regions.len()
        invariant
            i <= regions@.len(),
            forall|r: &Region, a: &Accum<A>, n: usize| #[trigger] call_requires(*build, (r, a, n)),
            out@.len() == i,
            forall|k: int|
                #![trigger out@[k]]
                0 <= k < i ==> built(*build, sums@, empty, regions@[k], out@[k]),
        decreases regions@.len() - i,
    {
        let region = regions[i];
        let acc = if region.id < sums.len() {
            sums[region.id]
        } else {
            empty
        };
        let a: usize = if acc.count >= region.area {
            acc.count
        } else {
            region.area
        };
        let area: usize = if a >= 1 {
            a
        } else {
            1
        };
        assert(call_requires(*build, (&region, &acc, area)));
        let f = build(&region, &acc, area);
        assert(built(*build, sums@, empty, region, f));
        out.push(f);
        i += 1;
    }
    out
}

/// `v` is the value of a pixel's region, held to the unit range; zero where the
/// pixel has no region.
pub open spec fn region_value<F: Fn(&RegionFeature) -> Scalar>(
    value: F,
    regions: Seq<RegionFeature>,
    label: Option<usize>,
    v: Scalar,
) -> bool {
    match label {
        Some(rid) => if rid < regions.len() {
            exists|raw: Scalar| #[trigger]
                call_ensures(value, (&regions[rid as int],), raw) && v == unit(raw)
        } else {
            v.bits == 0
        },
        None => v.bits == 0,
    }
}

/// A map of regions has the value of its region at every pixel, held to the unit
/// range, and zero at pixels without a known region.
pub proof fn region_maps_follow_labels<F: Fn(&RegionFeature) -> Scalar>(
    value: F,
    regions: Seq<RegionFeature>,
    label: Option<usize>,
    v: Scalar,
)
    requires
        region_value(value, regions, label, v),
    ensures
        label is None || label->Some_0 >= regions.len() ==> v.bits == 0,
        label is Some && label->Some_0 < regions.len() ==> exists|raw: Scalar| #[trigger]
            call_ensures(value, (&regions[label->Some_0 as int],), raw) && (in_unit(raw) ==> v
                == raw),
{
    if label is Some && label->Some_0 < regions.len() {
        let raw = choose|raw: Scalar| #[trigger]
            call_ensures(value, (&regions[label->Some_0 as int],), raw) && v == unit(raw);
        assert(call_ensures(value, (&regions[label->Some_0 as int],), raw) && (in_unit(raw) ==> v
            == raw));
    }
}

/// Spreads a value of the regions over their pixels.
pub fn labels_to_region_map<F: Fn(&RegionFeature) -> Scalar>(
    labels: &[Option<usize>],
    regions: &[RegionFeature],
    value: &F,
) -> (map: Vec<Scalar>)
    requires
        forall|r: &RegionFeature| #[trigger] call_requires(*value, (r,)),
    ensures
        map@.len() == labels@.len(),
        forall|i: int|
            #![trigger map@[i]]
            0 <= i < map@.len() ==> region_value(*value, regions@, labels@[i], map@[i]),
{
    let mut map: Vec<Scalar> = Vec::new();
    let mut i: usize = 0;
    while i < labels.len()
        invariant
            i <= labels@.len(),
            forall|r: &RegionFeature| #[trigger] call_requires(*value, (r,)),
            map@.len() == i,
            forall|k: int|
                #![trigger map@[k]]
                0 <= k < i ==> region_value(*value, regions@, labels@[k], map@[k]),
        decreases labels@.len() - i,
    {
        let v: Scalar = match labels[i] {
            Some(rid) => if rid < regions.len() {
                assert(call_requires(*value, (&regions@[rid as int],)));
                clamp_unit(value(&regions[rid]))
            } else {
                Scalar::zero()
            },
            None => Scalar::zero(),
        };
        assert(region_value(*value, regions@, labels@[i as int], v));
        map.push(v);
        i += 1;
    }
    map
}

/// `v` is the region's number as a share of the last number.
pub open spec fn id_value<F: Fn(usize, usize) -> Scalar>(
    ratio: F,
    region_count: int,
    label: Option<usize>,
    v: Scalar,
) -> bool {
    match label {
        Some(rid) => if region_count <= 1 {
            v.bits == 0
        } else {
            call_ensures(ratio, (rid, (region_count - 1) as usize), v)
        },
        None => v.bits == 0,
    }
}

/// Spreads the regions' numbers over their pixels, as shares of the last number.
pub fn build_region_id_map<F: Fn(usize, usize) -> Scalar>(
    labels: &[Option<usize>],
    region_count: usize,
    ratio: &F,
) -> (map: Vec<Scalar>)
    requires
        forall|a: usize, b: usize| #[trigger] call_requires(*ratio, (a, b)),
    ensures
        map@.len() == labels@.len(),
        forall|i: int|
            #![trigger map@[i]]
            0 <= i < map@.len() ==> id_value(*ratio, region_count as int, labels@[i], map@[i]),
{
    let mut map: Vec<Scalar> = Vec::new();
    let mut i: usize = 0;
    while i < labels.len()
        invariant
            i <= labels@.len(),
            forall|a: usize, b: usize| #[trigger] call_requires(*ratio, (a, b)),
            map@.len() == i,
            forall|k: int|
                #![trigger map@[k]]
                0 <= k < i ==> id_value(*ratio, region_count as int, labels@[k], map@[k]),
        decreases labels@.len() - i,
    {
        let v: Scalar = match labels[i] {
            Some(rid) => if region_count <= 1 {
                Scalar::zero()
            } else {
                let last: usize = region_count - 1;
                assert(call_requires(*ratio, (rid, last)));
                ratio(rid, last)
            },
            None => Scalar::zero(),
        };
        assert(id_value(*ratio, region_count as int, labels@[i as int], v));
        map.push(v);
        i += 1;
    }
    map
}

/// The colour scores of regions.
pub open spec fn scores(regions: Seq<RegionFeature>) -> Seq<Scalar> {
    Seq::new(regions.len(), |i: int| regions[i].color_score)
}

/// Sort keys under which higher scores come first.
pub open spec fn score_keys(regions: Seq<RegionFeature>, chosen: Seq<usize>) -> Seq<u64> {
    Seq::new(
        chosen.len(),
        |i: int| (u64::MAX - regions[chosen[i] as int].color_score.ordinal()) as u64,
    )
}

/// The regions with positive scores, higher scores first, equal ones in order.
pub open spec fn ranking(regions: Seq<RegionFeature>) -> Seq<usize> {
    let chosen = positives(scores(regions), regions.len() as int);
    let order = key_order(score_keys(regions, chosen));
    Seq::new(order.len(), |i: int| chosen[order[i] as int])
}

/// The first `top_k` of the ranking, at least one, as far as there are any.
pub open spec fn leading(regions: Seq<RegionFeature>, top_k: int) -> Seq<usize> {
    let all = ranking(regions);
    let k = if top_k >= 1 {
        top_k
    } else {
        1
    };
    if k < all.len() {
        all.take(k)
    } else {
        all
    }
}

/// The positions of the regions that the colour is made of, best first.
pub fn leading_regions(regions: &[RegionFeature], top_k: usize) -> (out: Vec<usize>)
    ensures
        out@ == leading(regions@, top_k as int),
{
    let mut values: Vec<Scalar> = Vec::new();
    let mut i: usize = 0;
    while i < regions.len()
        invariant
            i <= regions@.len(),
            values@.len() == i,
            forall|k: int| #![trigger values@[k]] 0 <= k < i ==> values@[k] == scores(regions@)[k],
        decreases regions@.len() - i,
    {
        values.push(regions[i].color_score);
        i += 1;
    }
    assert(values@ =~= scores(regions@));
    let chosen = sample_all(values.as_slice());
    proof {
        positives_in_range(scores(regions@), regions@.len() as int);
    }
    let mut keys: Vec<u64> = Vec::new();
    let mut i: usize = 0;
    while i < chosen.len()
        invariant
            i <= chosen@.len(),
            chosen@ == positives(scores(regions@), regions@.len() as int),
            forall|m: int|
                #![trigger chosen@[m]]
                0 <= m < chosen@.len() ==> chosen@[m] < regions@.len()
                    && !regions@[chosen@[m] as int].color_score.is_nan(),
            keys@.len() == i,
            forall|k: int|
                #![trigger keys@[k]]
                0 <= k < i ==> keys@[k] == score_keys(regions@, chosen@)[k],
        decreases chosen@.len() - i,
    {
        assert(chosen@[i as int] < regions@.len());
        keys.push(u64::MAX - regions[chosen[i]].color_score.sort_key());
        i += 1;
    }
    assert(keys@ =~= score_keys(regions@, chosen@));
    let order = stable_order(keys.as_slice());
    let k: usize = if top_k >= 1 {
        top_k
    } else {
        1
    };
    let count: usize = if k < order.len() {
        k
    } else {
        order.len()
    };
    let mut out: Vec<usize> = Vec::new();
    let mut i: usize = 0;
    while i < count
        invariant
            i <= count <= order@.len(),
            order@.len() == chosen@.len(),
            forall|m: int|
                #![trigger order@[m]]
                0 <= m < order@.len() ==> order@[m] < chosen@.len(),
            out@.len() == i,
            forall|m: int|
                #![trigger out@[m]]
                0 <= m < i ==> out@[m] == chosen@[order@[m] as int],
        decreases count - i,
    {
        out.push(chosen[order[i]]);
        i += 1;
    }
    assert(out@ =~= leading(regions@, top_k as int));
    out
}

proof fn positives_in_range(weights: Seq<Scalar>, k: int)
    requires
        0 <= k <= weights.len(),
        weights.len() <= usize::MAX,
    ensures
        forall|m: int|
            #![trigger positives(weights, k)[m]]
            0 <= m < positives(weights, k).len() ==> positives(weights, k)[m] < k && (Scalar {
                bits: 0,
            }).lt(weights[positives(weights, k)[m] as int]),
        positives(weights, k).len() <= k,
    decreases k,
{
    if k > 0 {
        positives_in_range(weights, k - 1);
        let before = positives(weights, k - 1);
        let now = positives(weights, k);
        assert forall|m: int| #![trigger now[m]] 0 <= m < now.len() implies now[m] < k && (Scalar {
            bits: 0,
        }).lt(weights[now[m] as int]) by {
            if m < before.len() {
                assert(now[m] == before[m]);
            }
        }
    }
}

/// Every region that a colour is made of has a positive score, and scores
/// descend.
pub proof fn leading_are_positive(regions: Seq<RegionFeature>, top_k: int, m: int)
    requires
        regions.len() <= usize::MAX,
        0 <= m < leading(regions, top_k).len(),
    ensures
        leading(regions, top_k)[m] < regions.len(),
        (Scalar { bits: 0 }).lt(regions[leading(regions, top_k)[m] as int].color_score),
        m > 0 ==> regions[leading(regions, top_k)[m] as int].color_score.le(
            regions[leading(regions, top_k)[m - 1] as int].color_score,
        ),
{
    let chosen = positives(scores(regions), regions.len() as int);
    positives_in_range(scores(regions), regions.len() as int);
    let keys = score_keys(regions, chosen);
    key_order_exists(keys);
    let order = key_order(keys);
    assert(ranking(regions)[m] == chosen[order[m] as int]);
    assert(order[m] < chosen.len());
    if m > 0 {
        assert(ranking(regions)[m - 1] == chosen[order[m - 1] as int]);
        assert(precedes(keys, order[m - 1] as int, order[m] as int));
    }
}

/// A position with a positive weight is among the positive ones.
proof fn positive_is_listed(weights: Seq<Scalar>, k: int, j: int) -> (p: int)
    requires
        0 <= j < k <= weights.len(),
        weights.len() <= usize::MAX,
        (Scalar { bits: 0 }).lt(weights[j]),
    ensures
        0 <= p < positives(weights, k).len(),
        positives(weights, k)[p] == j,
    decreases k,
{
    if j == k - 1 {
        positives(weights, k).len() - 1
    } else {
        let p = positive_is_listed(weights, k - 1, j);
        assert(positives(weights, k)[p] == positives(weights, k - 1)[p]);
        p
    }
}

/// Where a region has a positive score, a colour is made of at least one region,
/// and none scores higher than the first of them.
pub proof fn best_region_leads(regions: Seq<RegionFeature>, top_k: int, j: int)
    requires
        regions.len() <= usize::MAX,
        0 <= j < regions.len(),
        (Scalar { bits: 0 }).lt(regions[j].color_score),
    ensures
        leading(regions, top_k).len() > 0,
        regions[j].color_score.le(regions[leading(regions, top_k)[0] as int].color_score),
{
    let chosen = positives(scores(regions), regions.len() as int);
    positives_in_range(scores(regions), regions.len() as int);
    let p = positive_is_listed(scores(regions), regions.len() as int, j);
    let keys = score_keys(regions, chosen);
    key_order_exists(keys);
    let order = key_order(keys);
    permutation_reaches(order, keys.len() as int, p);
    let at = choose|i: int| 0 <= i < order.len() && order[i] == p;
    assert(order[at] == p);
    leading_are_positive(regions, top_k, 0);
    assert(ranking(regions)[0] == chosen[order[0] as int]);
    if at > 0 {
        assert(precedes(keys, order[0] as int, order[at] as int));
    }
}

/// A pixel with a neighbour of another label, to the left, to the right, above or
/// below, has at least strength one; one whose neighbours all share its label has
/// what is left of its edge strength, where that is not negative.
pub proof fn seams_stand_out<F: Fn(Scalar) -> Scalar>(
    damp: F,
    labels: Seq<Option<usize>>,
    edges: Seq<Scalar>,
    w: int,
    i: int,
    v: Scalar,
) -> (share: Scalar)
    requires
        w > 0,
        0 <= i < labels.len(),
        edges.len() == labels.len(),
        seam_strength(damp, labels, edges, w, i, v),
    ensures
        call_ensures(damp, (edges[i],), share),
        ({
            let n = labels.len() as int;
            let seam = (i % w > 0 && i >= 1 && labels[i - 1] != labels[i]) || (i % w + 1 < w && i + 1
                < n && labels[i + 1] != labels[i]) || (i >= w && labels[i - w] != labels[i]) || (i
                + w < n && labels[i + w] != labels[i]);
            &&& seam && share.le(Scalar { bits: 0x3FF0_0000_0000_0000 }) ==> v.bits
                == 0x3FF0_0000_0000_0000
            &&& seam && (Scalar { bits: 0x3FF0_0000_0000_0000 }).lt(share) ==> v == share
            &&& !seam && (Scalar { bits: 0 }).lt(share) ==> v == share
            &&& !seam && share.le(Scalar { bits: 0 }) ==> v.bits == 0
        }),
{
    let n = labels.len() as int;
    let share = choose|share: Scalar| #[trigger]
        call_ensures(damp, (edge_at(edges, i),), share) && v == seam_value(
            at_seam(labels, w, i),
            share,
        );
    if i % w > 0 && i >= 1 && labels[i - 1] != labels[i] {
        assert(beside(w, n, i, i - 1) && labels[i - 1] != labels[i]);
    }
    if i % w + 1 < w && i + 1 < n && labels[i + 1] != labels[i] {
        assert(beside(w, n, i, i + 1) && labels[i + 1] != labels[i]);
    }
    if i >= w && labels[i - w] != labels[i] {
        assert(beside(w, n, i, i - w) && labels[i - w] != labels[i]);
    }
    if i + w < n && labels[i + w] != labels[i] {
        assert(beside(w, n, i, i + w) && labels[i + w] != labels[i]);
    }
    share
}

/// The band is the wanted one where it fits, never wider than the image, and never
/// nothing.
pub proof fn band_fits(border_band: u32, w: u32, h: u32)
    ensures
        1 <= fitting_band(border_band, w, h),
        w >= 1 ==> fitting_band(border_band, w, h) <= w,
        h >= 1 ==> fitting_band(border_band, w, h) <= h,
        1 <= border_band && border_band <= w && border_band <= h ==> fitting_band(
            border_band,
            w,
            h,
        ) == border_band,
        border_band == 0 ==> fitting_band(border_band, w, h) == 1,
{
}

/// Border pixels are counted exactly: all of a region's pixels where all lie on
/// the border, none where none does.
pub proof fn border_pixels_are_counted(
    labels: Seq<Option<usize>>,
    w: u32,
    h: u32,
    band: int,
    r: int,
    k: int,
)
    requires
        0 <= k <= labels.len(),
    ensures
        (forall|i: int|
            #![trigger labels[i]]
            0 <= i < k && carries(labels, r, i) ==> on_border(w, h, band, i)) ==> border_count(
            labels,
            w,
            h,
            band,
            r,
            k,
        ) == area_of(labels, r, k),
        (forall|i: int|
            #![trigger labels[i]]
            0 <= i < k && carries(labels, r, i) ==> !on_border(w, h, band, i)) ==> border_count(
            labels,
            w,
            h,
            band,
            r,
            k,
        ) == 0,
    decreases k,
{
    if k > 0 {
        border_pixels_are_counted(labels, w, h, band, r, k - 1);
        assert(labels[k - 1] == labels[k - 1]);
    }
}

/// A region's features go by no smaller area than was counted or recorded, and by
/// one of these or one.
pub proof fn feature_area_covers(count: int, recorded: int)
    ensures
        feature_area(count, recorded) >= count,
        feature_area(count, recorded) >= recorded,
        feature_area(count, recorded) >= 1,
        feature_area(count, recorded) == count || feature_area(count, recorded) == recorded
            || feature_area(count, recorded) == 1,
{
}

/// No more regions lead than are wanted, at least one where there is one of
/// positive score, and all that do where they are no more than wanted.
pub proof fn leading_are_limited(regions: Seq<RegionFeature>, top_k: int, j: int)
    requires
        regions.len() <= usize::MAX,
        0 <= j < regions.len(),
    ensures
        leading(regions, top_k).len() <= top_k || leading(regions, top_k).len() <= 1,
        (Scalar { bits: 0 }).lt(regions[j].color_score) && leading(regions, top_k).len() < top_k
            ==> leading(regions, top_k).contains(j as usize),
{
    let chosen = positives(scores(regions), regions.len() as int);
    if (Scalar { bits: 0 }).lt(regions[j].color_score) && leading(regions, top_k).len() < top_k {
        let p = positive_is_listed(scores(regions), regions.len() as int, j);
        positives_in_range(scores(regions), regions.len() as int);
        let keys = score_keys(regions, chosen);
        key_order_exists(keys);
        let order = key_order(keys);
        permutation_reaches(order, keys.len() as int, p);
        let at = choose|i: int| 0 <= i < order.len() && order[i] == p;
        assert(ranking(regions)[at] == j as usize);
        assert(leading(regions, top_k) == ranking(regions));
    }
}

/// Where a pixel is marked, there are marked pixels.
proof fn marks_are_listed(mask: Seq<bool>, k: int, i: int)
    requires
        0 <= i < k <= mask.len(),
        mask[i],
    ensures
        marked(mask, k).len() > 0,
    decreases k,
{
    if i < k - 1 {
        marks_are_listed(mask, k - 1, i);
    }
}

/// `c` is the median of a channel over the border.
pub open spec fn border_median(data: Seq<Scalar>, w: u32, h: u32, band: int, c: Scalar) -> bool {
    exists|mask: Seq<bool>|
        {
            &&& #[trigger] masks_border(mask, w, h, band)
            &&& ranked(
                picked(data, marked(mask, mask.len() as int)),
                marked(mask, mask.len() as int).len() as int / 2,
                c,
            )
        }
}

/// The mask marks the border.
pub open spec fn masks_border(mask: Seq<bool>, w: u32, h: u32, band: int) -> bool {
    &&& mask.len() == w * h
    &&& forall|i: int| #![trigger mask[i]] 0 <= i < mask.len() ==> mask[i] == on_border(w, h, band, i)
}

/// The sums of a region of one pixel are what its place, its border mark and its
/// edge strength add to nothing.
pub proof fn single_pixels_are_added<A, F: Fn(A, usize, bool, Scalar) -> A>(
    tally: F,
    start: A,
    labels: Seq<Option<usize>>,
    edges: Seq<Scalar>,
    w: u32,
    h: u32,
    band: int,
    r: int,
    k: int,
    acc: A,
    i: int,
)
    requires
        summed_up(tally, start, labels, edges, w, h, band, r, k, acc),
        0 <= i < k <= labels.len() <= usize::MAX,
        edges.len() == labels.len(),
        forall|j: int| #![trigger labels[j]] 0 <= j < k ==> (carries(labels, r, j) <==> j == i),
    ensures
        ({
            let x = i % (w as int);
            let y = i / (w as int);
            let bordering = x < band || y < band || w - x <= band || h - y <= band;
            call_ensures(tally, (start, i as usize, bordering, edges[i]), acc)
        }),
    decreases k,
{
    assert(labels[k - 1] == labels[k - 1]);
    if i < k - 1 {
        single_pixels_are_added(
            tally,
            start,
            labels,
            edges,
            w,
            h,
            band,
            r,
            k - 1,
            acc,
            i,
        );
    } else {
        let before = choose|before: A|
            {
                &&& #[trigger] call_ensures(
                    tally,
                    (
                        before,
                        (k - 1) as usize,
                        on_border(w, h, band, k - 1),
                        edge_at(edges, k - 1),
                    ),
                    acc,
                )
                &&& summed_up(tally, start, labels, edges, w, h, band, r, k - 1, before)
            };
        nothing_is_added(tally, start, labels, edges, w, h, band, r, k - 1, before);
    }
}

proof fn nothing_is_added<A, F: Fn(A, usize, bool, Scalar) -> A>(
    tally: F,
    start: A,
    labels: Seq<Option<usize>>,
    edges: Seq<Scalar>,
    w: u32,
    h: u32,
    band: int,
    r: int,
    k: int,
    acc: A,
)
    requires
        summed_up(tally, start, labels, edges, w, h, band, r, k, acc),
        0 <= k <= labels.len(),
        forall|j: int| #![trigger labels[j]] 0 <= j < k ==> !carries(labels, r, j),
    ensures
        acc == start,
    decreases k,
{
    if k > 0 {
        assert(labels[k - 1] == labels[k - 1]);
        nothing_is_added(tally, start, labels, edges, w, h, band, r, k - 1, acc);
    }
}

/// The centre of a channel over the border has no more than half of the border
/// pixels below it, and no more than half above.
pub proof fn border_center_is_median(
    data: Seq<Scalar>,
    w: u32,
    h: u32,
    band: int,
    c: Scalar,
    i: int,
) -> (at: Seq<usize>)
    requires
        border_median(data, w, h, band, c),
        frame(w, h, data.len() as int),
        all_numbers(data),
        0 <= i < data.len(),
        band >= 1,
    ensures
        at.contains(i as usize) <==> i % (w as int) < band || i / (w as int) < band || w - i % (
        w as int) <= band || h - i / (w as int) <= band,
        2 * below(picked(data, at), c).len() <= at.len(),
        2 * above(picked(data, at), c).len() <= at.len(),
{
    let n = data.len() as int;
    let mask = choose|mask: Seq<bool>|
        {
            &&& #[trigger] masks_border(mask, w, h, band)
            &&& ranked(
                picked(data, marked(mask, mask.len() as int)),
                marked(mask, mask.len() as int).len() as int / 2,
                c,
            )
        };
    let at = marked(mask, n);
    marked_within(mask, n);
    pixel_in_frame(w, h, n, 0);
    assert(on_border(w, h, band, 0));
    assert(mask[0]);
    marks_are_listed(mask, n, 0);
    crate::border::marked_lists_all(mask, n, i);
    assert(mask[i] == on_border(w, h, band, i));
    let vals = picked(data, at);
    assert forall|k: int| #![trigger vals[k]] 0 <= k < vals.len() implies !vals[k].is_nan() by {
        assert(at[k] < n);
        assert(!data[at[k] as int].is_nan());
    }
    middle_rank_is_median(vals, c);
    at
}

/// The median colour of the border.
pub fn border_lab_center(
    lab_l: &[Scalar],
    lab_a: &[Scalar],
    lab_b: &[Scalar],
    w: u32,
    h: u32,
    band: u32,
) -> (c: [Scalar; 3])
    requires
        frame(w, h, lab_l@.len() as int),
        lab_a@.len() == lab_l@.len(),
        lab_b@.len() == lab_l@.len(),
        all_numbers(lab_l@),
        all_numbers(lab_a@),
        all_numbers(lab_b@),
        band >= 1,
    ensures
        lab_l@.len() == 0 ==> c[0].bits == 0 && c[1].bits == 0 && c[2].bits == 0,
        lab_l@.len() > 0 ==> {
            &&& border_median(lab_l@, w, h, band as int, c[0])
            &&& border_median(lab_a@, w, h, band as int, c[1])
            &&& border_median(lab_b@, w, h, band as int, c[2])
        },
{
    let n = lab_l.len();
    if n == 0 {
        return [Scalar::zero(), Scalar::zero(), Scalar::zero()];
    }
    let mask = border_mask(w, h, band);
    let edge = marked_pixels(mask.as_slice());
    proof {
        assert(masks_border(mask@, w, h, band as int));
        marked_within(mask@, n as int);
        pixel_in_frame(w, h, n as int, 0);
        assert(on_border(w, h, band as int, 0));
        assert(mask@[0]);
        marks_are_listed(mask@, n as int, 0);
    }
    [
        median_value(lab_l, edge.as_slice()),
        median_value(lab_a, edge.as_slice()),
        median_value(lab_b, edge.as_slice()),
    ]
}

/// The region with another score.
pub open spec fn rescored(f: RegionFeature, score: Scalar) -> RegionFeature {
    RegionFeature { color_score: score, ..f }
}

/// Sets every region's colour score to what `score` gives for the region.
pub fn compute_region_color_scores<F: Fn(&RegionFeature) -> Scalar>(
    regions: &mut Vec<RegionFeature>,
    score: &F,
)
    requires
        forall|r: &RegionFeature| #[trigger] call_requires(*score, (r,)),
    ensures
        final(regions)@.len() == old(regions)@.len(),
        forall|i: int|
            #![trigger final(regions)@[i]]
            0 <= i < old(regions)@.len() ==> scored(*score, old(regions)@[i], final(regions)@[i]),
{
    let ghost start = regions@;
    let mut i: usize = 0;
    while i < regions.len()
        invariant
            i <= regions@.len(),
            regions@.len() == start.len(),
            forall|r: &RegionFeature| #[trigger] call_requires(*score, (r,)),
            forall|k: int|
                #![trigger regions@[k]]
                0 <= k < i ==> scored(*score, start[k], regions@[k]),
            forall|k: int| #![trigger regions@[k]] i <= k < start.len() ==> regions@[k] == start[k],
        decreases regions@.len() - i,
    {
        let mut f = regions[i];
        assert(f == start[i as int]);
        assert(call_requires(*score, (&f,)));
        let v = score(&f);
        let ghost before = f;
        f.color_score = v;
        assert(f == rescored(before, v));
        assert(scored(*score, before, f));
        regions.set(i, f);
        i += 1;
    }
}

/// `after` is the region with the score that `score` gives for it.
pub open spec fn scored<F: Fn(&RegionFeature) -> Scalar>(
    score: F,
    before: RegionFeature,
    after: RegionFeature,
) -> bool {
    call_ensures(score, (&before,), after.color_score) && after == rescored(
        before,
        after.color_score,
    )
}

/// A colour made of regions.
#[derive(Clone, Debug)]
pub struct RegionColorResult {
    pub rgb: [Scalar; 3],
    pub score: Scalar,
    pub contributing_regions: Vec<usize>,
}

/// The numbers of the regions at the given positions.
pub open spec fn ids_at(regions: Seq<RegionFeature>, at: Seq<usize>) -> Seq<usize> {
    Seq::new(at.len(), |i: int| regions[at[i] as int].id)
}

/// `c` is mixed from the leading regions.
pub open spec fn mixed_from<M: Fn(&Vec<RegionFeature>, &Vec<usize>) -> ([Scalar; 3], Scalar)>(
    mix: M,
    regions: Vec<RegionFeature>,
    top_k: int,
    c: RegionColorResult,
) -> bool {
    &&& exists|at: Vec<usize>|
        {
            &&& at@ == leading(regions@, top_k)
            &&& #[trigger] call_ensures(mix, (&regions, &at), (c.rgb, c.score))
        }
    &&& c.contributing_regions@ == ids_at(regions@, leading(regions@, top_k))
}

/// Mixes the colour of the best regions; `mix` gets the regions and the
/// positions of the best, best first.
pub fn region_color_from_scores<
    M: Fn(&Vec<RegionFeature>, &Vec<usize>) -> ([Scalar; 3], Scalar),
>(regions: &Vec<RegionFeature>, top_k: usize, mix: &M) -> (c: RegionColorResult)
    requires
        forall|r: &Vec<RegionFeature>, at: &Vec<usize>| #[trigger] call_requires(*mix, (r, at)),
    ensures
        mixed_from(*mix, *regions, top_k as int, c),
{
    let at = leading_regions(regions.as_slice(), top_k);
    assert(call_requires(*mix, (regions, &at)));
    let pair = mix(regions, &at);
    let rgb = pair.0;
    let score = pair.1;
    let total = regions.len();
    let mut ids: Vec<usize> = Vec::new();
    let mut i: usize = 0;
    while i < at.len()
        invariant
            i <= at@.len(),
            total == regions@.len(),
            at@ == leading(regions@, top_k as int),
            ids@.len() == i,
            forall|k: int|
                #![trigger ids@[k]]
                0 <= k < i ==> ids@[k] == ids_at(regions@, at@)[k],
        decreases at@.len() - i,
    {
        proof {
            leading_are_positive(regions@, top_k as int, i as int);
        }
        ids.push(regions[at[i]].id);
        i += 1;
    }
    assert(ids@ =~= ids_at(regions@, at@));
    let c = RegionColorResult { rgb, score, contributing_regions: ids };
    assert(call_ensures(*mix, (&*regions, &at), (c.rgb, c.score)));
    assert(at@ == leading(regions@, top_k as int));
    assert(c.contributing_regions@ == ids_at(regions@, leading(regions@, top_k as int)));
    c
}

/// What a segmentation says of an image.
#[derive(Clone, Debug)]
pub struct SegmentFeatureResult {
    pub labels: Vec<Option<usize>>,
    pub regions: Vec<RegionFeature>,
    pub region_id_map: Vec<Scalar>,
    pub boundary_map: Vec<Scalar>,
    pub bg_probability: Vec<Scalar>,
    pub saliency: Vec<Scalar>,
    pub subject_confidence: Vec<Scalar>,
    pub region_color: RegionColorResult,
}

/// Every pixel of the map has its region's background probability.
pub open spec fn spreads_background(
    labels: Seq<Option<usize>>,
    regions: Seq<RegionFeature>,
    map: Seq<Scalar>,
) -> bool {
    &&& map.len() == labels.len()
    &&& forall|i: int|
        #![trigger map[i]]
        0 <= i < map.len() ==> map[i] == match labels[i] {
            Some(rid) => if rid < regions.len() {
                unit(regions[rid as int].bg_probability)
            } else {
                Scalar { bits: 0 }
            },
            None => Scalar { bits: 0 },
        }
}

/// Every pixel of the map has its region's confidence of being the subject.
pub open spec fn spreads_subject(
    labels: Seq<Option<usize>>,
    regions: Seq<RegionFeature>,
    map: Seq<Scalar>,
) -> bool {
    &&& map.len() == labels.len()
    &&& forall|i: int|
        #![trigger map[i]]
        0 <= i < map.len() ==> map[i] == match labels[i] {
            Some(rid) => if rid < regions.len() {
                unit(regions[rid as int].subject_confidence)
            } else {
                Scalar { bits: 0 }
            },
            None => Scalar { bits: 0 },
        }
}

/// The regions' features before they are scored.
pub open spec fn unscored<
    A,
    T: Fn(A, usize, bool, Scalar) -> A,
    B: Fn(&Region, &Accum<A>, usize) -> RegionFeature,
>(
    seg: SegmentResult,
    band: int,
    start: A,
    tally: T,
    build: B,
    sums: Seq<Accum<A>>,
    raw: Seq<RegionFeature>,
) -> bool {
    &&& sums.len() == seg.regions@.len()
    &&& forall|r: int|
        #![trigger sums[r]]
        0 <= r < sums.len() ==> accumulated(
            tally,
            start,
            seg.labels@,
            seg.edge_map@,
            seg.width,
            seg.height,
            band,
            r,
            seg.labels@.len() as int,
            sums[r],
        )
    &&& raw.len() == seg.regions@.len()
    &&& forall|i: int|
        #![trigger raw[i]]
        0 <= i < raw.len() ==> built(
            build,
            sums,
            Accum { count: 0, border_count: 0, sums: start },
            seg.regions@[i],
            raw[i],
        )
}

/// Every region has its score.
pub open spec fn all_scored<F: Fn(&RegionFeature) -> Scalar>(
    score: F,
    raw: Seq<RegionFeature>,
    regions: Seq<RegionFeature>,
) -> bool {
    &&& regions.len() == raw.len()
    &&& forall|i: int|
        #![trigger regions[i]]
        0 <= i < regions.len() ==> scored(score, raw[i], regions[i])
}

/// `f` describes the segmentation.
pub open spec fn describes<
    A,
    T: Fn(A, usize, bool, Scalar) -> A,
    B: Fn(&Region, &Accum<A>, usize) -> RegionFeature,
    C: Fn(&RegionFeature) -> Scalar,
    R: Fn(usize, usize) -> Scalar,
    D: Fn(Scalar) -> Scalar,
    M: Fn(&Vec<RegionFeature>, &Vec<usize>) -> ([Scalar; 3], Scalar),
>(
    seg: SegmentResult,
    saliency: Seq<Scalar>,
    band: int,
    top_k: int,
    start: A,
    tally: T,
    build: B,
    score: C,
    ratio: R,
    damp: D,
    mix: M,
    f: SegmentFeatureResult,
) -> bool {
    &&& f.labels@ == seg.labels@
    &&& f.saliency@ == saliency
    &&& exists|sums: Seq<Accum<A>>, raw: Seq<RegionFeature>|
        {
            &&& #[trigger] unscored(seg, band, start, tally, build, sums, raw)
            &&& all_scored(score, raw, f.regions@)
            &&& spreads_background(f.labels@, raw, f.bg_probability@)
            &&& spreads_subject(f.labels@, raw, f.subject_confidence@)
        }
    &&& f.region_id_map@.len() == f.labels@.len()
    &&& forall|i: int|
        #![trigger f.region_id_map@[i]]
        0 <= i < f.labels@.len() ==> id_value(
            ratio,
            f.regions@.len() as int,
            f.labels@[i],
            f.region_id_map@[i],
        )
    &&& f.boundary_map@.len() == f.labels@.len()
    &&& forall|i: int|
        #![trigger f.boundary_map@[i]]
        0 <= i < f.labels@.len() ==> seam_strength(
            damp,
            f.labels@,
            seg.edge_map@,
            seg.width as int,
            i,
            f.boundary_map@[i],
        )
    &&& mixed_from(mix, f.regions, top_k, f.region_color)
}

/// Every pixel carries the background probability and the subject confidence of its
/// own region, held to the unit range.
pub proof fn pixels_carry_their_region<
    A,
    T: Fn(A, usize, bool, Scalar) -> A,
    B: Fn(&Region, &Accum<A>, usize) -> RegionFeature,
    C: Fn(&RegionFeature) -> Scalar,
    R: Fn(usize, usize) -> Scalar,
    D: Fn(Scalar) -> Scalar,
    M: Fn(&Vec<RegionFeature>, &Vec<usize>) -> ([Scalar; 3], Scalar),
>(
    seg: SegmentResult,
    saliency: Seq<Scalar>,
    band: int,
    top_k: int,
    start: A,
    tally: T,
    build: B,
    score: C,
    ratio: R,
    damp: D,
    mix: M,
    f: SegmentFeatureResult,
    i: int,
)
    requires
        describes(
            seg,
            saliency,
            band,
            top_k,
            start,
            tally,
            build,
            score,
            ratio,
            damp,
            mix,
            f,
        ),
        0 <= i < seg.labels@.len(),
        seg.labels@[i] is Some,
        seg.labels@[i]->Some_0 < seg.regions@.len(),
        in_unit(f.regions@[seg.labels@[i]->Some_0 as int].bg_probability),
        in_unit(f.regions@[seg.labels@[i]->Some_0 as int].subject_confidence),
    ensures
        f.labels@[i] == seg.labels@[i],
        f.bg_probability@[i] == f.regions@[seg.labels@[i]->Some_0 as int].bg_probability,
        f.subject_confidence@[i] == f.regions@[seg.labels@[i]->Some_0 as int].subject_confidence,
        seg.regions@.len() > 1 ==> call_ensures(
            ratio,
            (seg.labels@[i]->Some_0, (seg.regions@.len() - 1) as usize),
            f.region_id_map@[i],
        ),
        seg.regions@.len() == 1 ==> f.region_id_map@[i].bits == 0,
{
    let (sums, raw) = choose|sums: Seq<Accum<A>>, raw: Seq<RegionFeature>|
        {
            &&& #[trigger] unscored(seg, band, start, tally, build, sums, raw)
            &&& all_scored(score, raw, f.regions@)
            &&& spreads_background(f.labels@, raw, f.bg_probability@)
            &&& spreads_subject(f.labels@, raw, f.subject_confidence@)
        };
    let r = seg.labels@[i]->Some_0 as int;
    assert(scored(score, raw[r], f.regions@[r]));
    assert(f.bg_probability@[i] == unit(raw[r].bg_probability));
    assert(f.subject_confidence@[i] == unit(raw[r].subject_confidence));
    assert(id_value(ratio, f.regions@.len() as int, f.labels@[i], f.region_id_map@[i]));
}

/// Describes a segmentation: `tally` sums up the pixels of a region, `build`
/// makes its features of the sums, `score` rates it as a source of colour, and
/// `mix` makes the colour of the best.
pub fn describe_segments<
    A: Copy,
    T: Fn(A, usize, bool, Scalar) -> A,
    B: Fn(&Region, &Accum<A>, usize) -> RegionFeature,
    C: Fn(&RegionFeature) -> Scalar,
    R: Fn(usize, usize) -> Scalar,
    D: Fn(Scalar) -> Scalar,
    M: Fn(&Vec<RegionFeature>, &Vec<usize>) -> ([Scalar; 3], Scalar),
>(
    seg: SegmentResult,
    saliency: Vec<Scalar>,
    border_band: u32,
    top_k: usize,
    start: A,
    tally: &T,
    build: &B,
    score: &C,
    ratio: &R,
    damp: &D,
    mix: &M,
) -> (f: SegmentFeatureResult)
    requires
        frame(seg.width, seg.height, seg.labels@.len() as int),
        forall|a: A, i: usize, b: bool, e: Scalar| #[trigger]
            call_requires(*tally, (a, i, b, e)),
        forall|r: &Region, a: &Accum<A>, n: usize| #[trigger] call_requires(*build, (r, a, n)),
        forall|r: &RegionFeature| #[trigger] call_requires(*score, (r,)),
        forall|a: usize, b: usize| #[trigger] call_requires(*ratio, (a, b)),
        forall|v: Scalar| #[trigger] call_requires(*damp, (v,)),
        forall|r: &Vec<RegionFeature>, at: &Vec<usize>| #[trigger] call_requires(*mix, (r, at)),
    ensures
        describes(
            seg,
            saliency@,
            fitting_band(border_band, seg.width, seg.height),
            top_k as int,
            start,
            *tally,
            *build,
            *score,
            *ratio,
            *damp,
            *mix,
            f,
        ),
{
    let boundary_map = build_boundary_map(
        seg.labels.as_slice(),
        seg.edge_map.as_slice(),
        seg.width,
        seg.height,
        damp,
    );
    let sums = compute_region_stats(
        seg.labels.as_slice(),
        seg.edge_map.as_slice(),
        seg.width,
        seg.height,
        seg.regions.len(),
        border_band,
        start,
        tally,
    );
    let empty = Accum { count: 0, border_count: 0, sums: start };
    let mut regions = build_region_features(
        seg.regions.as_slice(),
        sums.as_slice(),
        empty,
        build,
    );
    let ghost raw = regions@;
    let ghost band = fitting_band(border_band, seg.width, seg.height);
    assert(unscored(seg, band, start, *tally, *build, sums@, raw));
    let background = |r: &RegionFeature| -> (v: Scalar)
        ensures
            v == r.bg_probability,
        { r.bg_probability };
    let bg_probability = labels_to_region_map(
        seg.labels.as_slice(),
        regions.as_slice(),
        &background,
    );
    proof {
        assert forall|i: int|
            #![trigger bg_probability@[i]]
            0 <= i < bg_probability@.len() implies bg_probability@[i] == match seg.labels@[i] {
            Some(rid) => if rid < raw.len() {
                unit(raw[rid as int].bg_probability)
            } else {
                Scalar { bits: 0 }
            },
            None => Scalar { bits: 0 },
        } by {
            assert(region_value(background, raw, seg.labels@[i], bg_probability@[i]));
        }
        assert(spreads_background(seg.labels@, raw, bg_probability@));
    }
    let subject = |r: &RegionFeature| -> (v: Scalar)
        ensures
            v == r.subject_confidence,
        { r.subject_confidence };
    let subject_confidence = labels_to_region_map(
        seg.labels.as_slice(),
        regions.as_slice(),
        &subject,
    );
    proof {
        assert forall|i: int|
            #![trigger subject_confidence@[i]]
            0 <= i < subject_confidence@.len() implies subject_confidence@[i] == match seg.labels@[i] {
            Some(rid) => if rid < raw.len() {
                unit(raw[rid as int].subject_confidence)
            } else {
                Scalar { bits: 0 }
            },
            None => Scalar { bits: 0 },
        } by {
            assert(region_value(subject, raw, seg.labels@[i], subject_confidence@[i]));
        }
        assert(spreads_subject(seg.labels@, raw, subject_confidence@));
    }
    let region_id_map = build_region_id_map(seg.labels.as_slice(), regions.len(), ratio);
    compute_region_color_scores(&mut regions, score);
    assert(all_scored(*score, raw, regions@));
    let region_color = region_color_from_scores(&regions, top_k, mix);
    SegmentFeatureResult {
        labels: seg.labels,
        regions,
        region_id_map,
        boundary_map,
        bg_probability,
        saliency,
        subject_confidence,
        region_color,
    }
}

/// What feature weights look at in a segmentation.
#[derive(Clone, Copy, Debug)]
pub struct RegionWeightContext<'a> {
    pub labels: &'a [Option<usize>],
    pub region_count: usize,
    pub saliency: &'a [Scalar],
    pub bg_probability: &'a [Scalar],
}

/// A segmentation in short, for a report.
#[derive(Clone, Debug)]
pub struct SegmentDiagnostics {
    pub width: u32,
    pub height: u32,
    pub region_count: usize,
    pub region_color: RegionColorResult,
    pub regions: Vec<RegionFeature>,
}

impl SegmentFeatureResult {
    /// What feature weights look at.
    pub fn weight_context(&self) -> (c: RegionWeightContext<'_>)
        ensures
            c.labels@ == self.labels@,
            c.region_count == self.regions@.len(),
            c.saliency@ == self.saliency@,
            c.bg_probability@ == self.bg_probability@,
    {
        RegionWeightContext {
            labels: self.labels.as_slice(),
            region_count: self.regions.len(),
            saliency: self.saliency.as_slice(),
            bg_probability: self.bg_probability.as_slice(),
        }
    }

    /// The segmentation in short.
    pub fn diagnostics(&self, width: u32, height: u32) -> (d: SegmentDiagnostics)
        ensures
            d.width == width,
            d.height == height,
            d.region_count == self.regions@.len(),
            d.region_color.rgb == self.region_color.rgb,
            d.region_color.score == self.region_color.score,
            d.region_color.contributing_regions@ == self.region_color.contributing_regions@,
            d.regions@ == self.regions@,
    {
        let mut ids: Vec<usize> = Vec::new();
        let mut i: usize = 0;
        while i < self.region_color.contributing_regions.len()
            invariant
                i <= self.region_color.contributing_regions@.len(),
                ids@ == self.region_color.contributing_regions@.take(i as int),
            decreases self.region_color.contributing_regions@.len() - i,
        {
            ids.push(self.region_color.contributing_regions[i]);
            i += 1;
            assert(ids@ =~= self.region_color.contributing_regions@.take(i as int));
        }
        assert(ids@ =~= self.region_color.contributing_regions@);
        let mut regions: Vec<RegionFeature> = Vec::new();
        let mut i: usize = 0;
        while i < self.regions.len()
            invariant
                i <= self.regions@.len(),
                regions@ == self.regions@.take(i as int),
            decreases self.regions@.len() - i,
        {
            regions.push(self.regions[i]);
            i += 1;
            assert(regions@ =~= self.regions@.take(i as int));
        }
        assert(regions@ =~= self.regions@);
        SegmentDiagnostics {
            width,
            height,
            region_count: self.regions.len(),
            region_color: RegionColorResult {
                rgb: self.region_color.rgb,
                score: self.region_color.score,
                contributing_regions: ids,
            },
            regions,
        }
    }
}

/// The value at a position, or another where there is none.
pub open spec fn value_or(map: Seq<Scalar>, i: int, other: Scalar) -> Scalar {
    if i < map.len() {
        map[i]
    } else {
        other
    }
}

/// Corrects a map of the foreground by the segments: `blend` mixes a value with
/// the background probability and the subject confidence of its pixel. A pixel
/// outside the segmentation is background.
pub fn apply_segment_foreground_prior<B: Fn(Scalar, Scalar, Scalar) -> Scalar>(
    foreground: &[Scalar],
    segment: &SegmentFeatureResult,
    blend: &B,
) -> (out: Vec<Scalar>)
    requires
        forall|f: Scalar, b: Scalar, s: Scalar| #[trigger] call_requires(*blend, (f, b, s)),
    ensures
        out@.len() == foreground@.len(),
        forall|i: int|
            #![trigger out@[i]]
            0 <= i < out@.len() ==> call_ensures(
                *blend,
                (
                    foreground@[i],
                    value_or(segment.bg_probability@, i, Scalar { bits: ONE_BITS }),
                    value_or(segment.subject_confidence@, i, Scalar { bits: 0 }),
                ),
                out@[i],
            ),
{
    let mut out: Vec<Scalar> = Vec::new();
    let mut i: usize = 0;
    while i < foreground.len()
        invariant
            i <= foreground@.len(),
            out@.len() == i,
            forall|f: Scalar, b: Scalar, s: Scalar| #[trigger] call_requires(*blend, (f, b, s)),
            forall|k: int|
                #![trigger out@[k]]
                0 <= k < i ==> call_ensures(
                    *blend,
                    (
                        foreground@[k],
                        value_or(segment.bg_probability@, k, Scalar { bits: ONE_BITS }),
                        value_or(segment.subject_confidence@, k, Scalar { bits: 0 }),
                    ),
                    out@[k],
                ),
        decreases foreground@.len() - i,
    {
        let bg = if i < segment.bg_probability.len() {
            segment.bg_probability[i]
        } else {
            Scalar::new(ONE_BITS)
        };
        let subject = if i < segment.subject_confidence.len() {
            segment.subject_confidence[i]
        } else {
            Scalar::new(0)
        };
        assert(call_requires(*blend, (foreground@[i as int], bg, subject)));
        out.push(blend(foreground[i], bg, subject));
        i += 1;
    }
    out
}

/// Why an image's segments cannot be described.
#[derive(Clone, Copy, Debug, PartialEq, Eq, Structural)]
pub enum FeatureError {
    /// There are not as many pixels as the size asks for.
    PixelCount,
    /// The image cannot be segmented.
    Segmentation(SegmentError),
}

/// Segments an image and describes the segments.
pub fn compute_segment_features<
    L: Copy,
    Q: Fn([u8; 3]) -> L,
    G: Fn(Around<L>) -> Scalar,
    V: Fn(Scalar, Scalar) -> Scalar,
    H: Fn(Scalar, Scalar) -> Scalar,
    P: Fn(&Vec<Contact>, &RegionStats, &RegionStats) -> PairMeasure,
    A: Copy,
    T: Fn(A, usize, bool, Scalar) -> A,
    B: Fn(&Region, &Accum<A>, usize) -> RegionFeature,
    C: Fn(&RegionFeature) -> Scalar,
    R: Fn(usize, usize) -> Scalar,
    D: Fn(Scalar) -> Scalar,
    M: Fn(&Vec<RegionFeature>, &Vec<usize>) -> ([Scalar; 3], Scalar),
>(
    pixels: &[[u8; 3]],
    w: u32,
    h: u32,
    grow: &GrowLimits,
    merge: &MergeLimits,
    convert: &Q,
    gradient: &G,
    curve: &V,
    hint: &H,
    measure: &P,
    saliency: Vec<Scalar>,
    border_band: u32,
    top_k: usize,
    start: A,
    tally: &T,
    build: &B,
    score: &C,
    ratio: &R,
    damp: &D,
    mix: &M,
) -> (r: Result<SegmentFeatureResult, FeatureError>)
    requires
        w * h <= u32::MAX,
        forall|p: [u8; 3]| #[trigger] call_requires(*convert, (p,)),
        forall|a: Around<L>| #[trigger] call_requires(*gradient, (a,)),
        forall|m: Scalar, v: Scalar| #[trigger] call_requires(*curve, (m, v)),
        forall|a: Scalar, b: Scalar| #[trigger] call_requires(*hint, (a, b)),
        forall|c: &Vec<Contact>, a: &RegionStats, b: &RegionStats| #[trigger]
            call_requires(*measure, (c, a, b)),
        forall|a: A, i: usize, b: bool, e: Scalar| #[trigger]
            call_requires(*tally, (a, i, b, e)),
        forall|r: &Region, a: &Accum<A>, n: usize| #[trigger] call_requires(*build, (r, a, n)),
        forall|r: &RegionFeature| #[trigger] call_requires(*score, (r,)),
        forall|a: usize, b: usize| #[trigger] call_requires(*ratio, (a, b)),
        forall|v: Scalar| #[trigger] call_requires(*damp, (v,)),
        forall|r: &Vec<RegionFeature>, at: &Vec<usize>| #[trigger] call_requires(*mix, (r, at)),
    ensures
        pixels@.len() != w * h <==> r == Err::<SegmentFeatureResult, FeatureError>(
            FeatureError::PixelCount,
        ),
        pixels@.len() == w * h && w * h == 0 <==> r == Err::<SegmentFeatureResult, FeatureError>(
            FeatureError::Segmentation(SegmentError::EmptyImage),
        ),
        r is Ok <==> pixels@.len() == w * h && w * h > 0,
        r is Ok ==> exists|seg: SegmentResult|
            {
                &&& seg.width == w
                &&& seg.height == h
                &&& edges_of_image(*convert, *gradient, *curve, pixels@, w, h, seg.edge_map@)
                &&& settles_finite(*gradient, *curve) ==> all_unit(seg.edge_map@)
                &&& #[trigger] is_segmentation(seg, pixels@, *grow, *merge, *hint, *measure)
                &&& result_wf(seg, pixels@.len() as int)
                &&& describes(
                    seg,
                    saliency@,
                    fitting_band(border_band, w, h),
                    top_k as int,
                    start,
                    *tally,
                    *build,
                    *score,
                    *ratio,
                    *damp,
                    *mix,
                    r->Ok_0,
                )
            },
{
    let n = (w as u64 * h as u64) as usize;
    if pixels.len() != n {
        return Err(FeatureError::PixelCount);
    }
    match segment(pixels, w, h, grow, merge, convert, gradient, curve, hint, measure) {
        Err(e) => {
            let SegmentError::EmptyImage = e;
            Err(FeatureError::Segmentation(SegmentError::EmptyImage))
        },
        Ok(seg) => {
            let f = describe_segments(
                seg,
                saliency,
                border_band,
                top_k,
                start,
                tally,
                build,
                score,
                ratio,
                damp,
                mix,
            );
            Ok(f)
        },
    }
}

/// A region is built from the sums of its own number, over an area that is at
/// least its own and at least the number of pixels that were summed.
pub proof fn features_have_their_sums<A, B: Fn(&Region, &Accum<A>, usize) -> RegionFeature>(
    build: B,
    sums: Seq<Accum<A>>,
    empty: Accum<A>,
    region: Region,
    f: RegionFeature,
) -> (area: usize)
    requires
        built(build, sums, empty, region, f),
    ensures
        region.id < sums.len() ==> call_ensures(
            build,
            (&region, &sums[region.id as int], area),
            f,
        ) && area >= sums[region.id as int].count,
        region.id >= sums.len() ==> call_ensures(build, (&region, &empty, area), f),
        area >= region.area,
        area >= 1,
{
    let acc = if region.id < sums.len() {
        sums[region.id as int]
    } else {
        empty
    };
    feature_area(acc.count as int, region.area as int) as usize
}

/// The colour is mixed of the leading regions, and just these are named, in their
/// order.
pub proof fn mixed_regions_are_named<
    M: Fn(&Vec<RegionFeature>, &Vec<usize>) -> ([Scalar; 3], Scalar),
>(mix: M, regions: Vec<RegionFeature>, top_k: int, c: RegionColorResult, j: int) -> (at: Vec<usize>)
    requires
        mixed_from(mix, regions, top_k, c),
        0 <= j < leading(regions@, top_k).len(),
    ensures
        at@ == leading(regions@, top_k),
        call_ensures(mix, (&regions, &at), (c.rgb, c.score)),
        c.contributing_regions@.len() == at@.len(),
        c.contributing_regions@[j] == regions@[at@[j] as int].id,
{
    choose|at: Vec<usize>|
        {
            &&& at@ == leading(regions@, top_k)
            &&& #[trigger] call_ensures(mix, (&regions, &at), (c.rgb, c.score))
        }
}

} // verus!
