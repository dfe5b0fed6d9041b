//! Separating foreground and background by colour clusters alone.

use vstd::prelude::*;
use crate::background::{
    border_flags, cluster_mask, color_gap, every_pixel, flooded, is_link, without_small,
};
use crate::border::{
    assigned, assigned_within, band_width, border_mask, cluster_map, clusters_made_of,
    clusters_decide_background, clusters_to_bg_mask, holder, is_affinity, names_holder, on_border,
    reassign_indices, score_clusters, scored, Cutoff,
};
use crate::clusters::{
    apart, is_distance, merge_small_clusters, merging_keeps_pixels, small_clusters_vanish,
};
use crate::flood::{
    answers, flood, flood_is_least, passes, reached, reached_spreads, seed_reached,
};
use crate::morphology::{clean_mask, cleaned};
use crate::params::MorphologyParams;
use crate::partition::{
    all_pixels, cut_into, cuts_keep_pixels, median_cut_partition, Cluster, CutLimits, Spread,
};
use crate::quantile::all_numbers;
use crate::region::frame;
use crate::scalar::{Scalar, MAX_BITS, ONE_BITS};

verus! {

/// Bit pattern of one half.
pub const HALF_BITS: u64 = 0x3FE0_0000_0000_0000;

/// Settings of the separation.
#[derive(Clone, Copy, Debug)]
pub struct SeparationParams {
    pub enabled: bool,
    pub max_clusters: usize,
    pub max_depth: usize,
    pub variance_threshold: Scalar,
    pub border_band: u32,
    /// Mask value from which a border pixel starts the flood, and colour
    /// distance up to which the flood passes.
    pub bg_score_threshold: Scalar,
    pub morphology: MorphologyParams,
}

/// Clusters, masks and foreground of an image.
pub struct PartitionResult<S> {
    pub clusters: Vec<Cluster<S>>,
    /// Background score of each cluster.
    pub scores: Vec<Scalar>,
    /// The flood from the border.
    pub bg_mask_raw: Vec<bool>,
    /// The flood, cleaned up.
    pub bg_mask_morph: Vec<bool>,
    /// Everything that is not background.
    pub foreground: Vec<bool>,
    /// The cluster of each pixel.
    pub cluster_of: Vec<Option<usize>>,
}

/// Pixels on the border start the flood where their mask value, one or zero,
/// reaches the threshold.
pub open spec fn mask_seeds(
    raw: Seq<bool>,
    width: u32,
    height: u32,
    border_band: u32,
    threshold: Scalar,
) -> Seq<bool> {
    Seq::new(
        raw.len(),
        |i: int|
            on_border(width, height, band_width(border_band), i) && threshold.le(
                if raw[i] {
                    Scalar { bits: ONE_BITS }
                } else {
                    Scalar { bits: 0 }
                },
            ),
    )
}

/// The flood passes to pixels close in colour.
pub open spec fn color_gate<L: Fn(usize, usize) -> Scalar>(link: L, limit: Scalar) -> spec_fn(
    int,
    int,
) -> bool {
    |i: int, j: int| color_gap(link, i as usize, j as usize).le(limit)
}

/// The background connected to the border: what a flood from the border's
/// background pixels reaches over pixels close in colour.
pub fn flood_from_mask<L: Fn(usize, usize) -> Scalar>(
    raw: &[bool],
    width: u32,
    height: u32,
    border_band: u32,
    threshold: Scalar,
    link: &L,
) -> (mask: Vec<bool>)
    requires
        frame(width, height, raw@.len() as int),
        is_link(*link, raw@.len() as int),
    ensures
        mask@ == flooded(
            mask_seeds(raw@, width, height, border_band, threshold),
            color_gate(*link, threshold),
            width as int,
        ),
{
    let size = raw.len();
    let border = border_mask(width, height, border_band);
    let on = threshold.at_most(&Scalar::new(ONE_BITS));
    let off = threshold.at_most(&Scalar::zero());
    let mut seeds: Vec<bool> = Vec::new();
    let mut i: usize = 0;
    while i < size
        invariant
            i <= size,
            size == raw@.len(),
            border@.len() == size,
            on == threshold.le(Scalar { bits: ONE_BITS }),
            off == threshold.le(Scalar { bits: 0 }),
            forall|k: int|
                #![trigger border@[k]]
                0 <= k < border@.len() ==> border@[k] == on_border(
                    width,
                    height,
                    band_width(border_band),
                    k,
                ),
            seeds@.len() == i,
            forall|k: int|
                #![trigger seeds@[k]]
                0 <= k < i ==> seeds@[k] == mask_seeds(
                    raw@,
                    width,
                    height,
                    border_band,
                    threshold,
                )[k],
        decreases size - i,
    {
        let enough: bool = if raw[i] {
            on
        } else {
            off
        };
        seeds.push(border[i] && enough);
        i += 1;
    }
    assert(seeds@ =~= mask_seeds(raw@, width, height, border_band, threshold));
    let ghost gate = color_gate(*link, threshold);
    let open = |i: usize, j: usize| -> (r: bool)
        requires
            i < size,
            j < size,
        ensures
            r == gate(i as int, j as int),
        { crate::background::close_in_color(link, i, j, threshold, size) };
    assert(answers(open, gate, size as int));
    let mask = flood(&seeds, width, height, &open, Ghost(gate));
    assert(mask@ =~= flooded(seeds@, gate, width as int));
    mask
}

/// The stages from all pixels to scored clusters.
pub ghost struct Stages<S> {
    pub cut: Seq<Cluster<S>>,
    pub merged: Seq<Cluster<S>>,
}

/// More clusters than wanted: the first ones stay, and every pixel goes to the
/// nearest of them.
pub open spec fn limited<S, P: Fn(usize, &S) -> Scalar>(
    cs: Seq<Cluster<S>>,
    max: int,
    n: int,
    affinity: P,
    out: Seq<Cluster<S>>,
) -> bool {
    if cs.len() <= max {
        out == cs
    } else {
        let kept = cs.take(max);
        &&& out.len() == max
        &&& forall|c: int|
            #![trigger out[c]]
            0 <= c < max ==> out[c].summary == kept[c].summary && out[c].indices@ == assigned(
                affinity,
                kept,
                c,
                n,
            )
    }
}

/// The clusters and scores come about by way of `st`.
pub open spec fn clustered<
    S,
    F: Fn(&Vec<usize>) -> S,
    G: Fn(&S) -> Spread,
    D: Fn(&S, &S) -> Scalar,
    P: Fn(usize, &S) -> Scalar,
    Q: Fn(&S, usize, usize) -> Scalar,
>(
    st: Stages<S>,
    out: Seq<Cluster<S>>,
    scores: Seq<Scalar>,
    l: Seq<Scalar>,
    a: Seq<Scalar>,
    b: Seq<Scalar>,
    width: u32,
    height: u32,
    p: SeparationParams,
    min_area: int,
    summarise: F,
    spread: G,
    distance: D,
    affinity: P,
    score: Q,
) -> bool {
    let lim = CutLimits { max_depth: p.max_depth, variance_threshold: p.variance_threshold };
    &&& cut_into(l, a, b, every_pixel(l.len() as int), 0, lim, summarise, spread, st.cut)
    &&& without_small(summarise, distance, st.cut, min_area, st.merged)
    &&& limited(st.merged, p.max_clusters as int, l.len() as int, affinity, out)
    &&& scores.len() == out.len()
    &&& forall|c: int|
        #![trigger scores[c]]
        0 <= c < scores.len() ==> scored(
            score,
            out[c],
            border_flags(width, height, p.border_band),
            scores[c],
        )
}

/// Clusters and scores come from cutting all pixels, merging small clusters and
/// limiting their number.
pub open spec fn is_clustered<
    S,
    F: Fn(&Vec<usize>) -> S,
    G: Fn(&S) -> Spread,
    D: Fn(&S, &S) -> Scalar,
    P: Fn(usize, &S) -> Scalar,
    Q: Fn(&S, usize, usize) -> Scalar,
>(
    out: Seq<Cluster<S>>,
    scores: Seq<Scalar>,
    l: Seq<Scalar>,
    a: Seq<Scalar>,
    b: Seq<Scalar>,
    width: u32,
    height: u32,
    p: SeparationParams,
    min_area: int,
    summarise: F,
    spread: G,
    distance: D,
    affinity: P,
    score: Q,
) -> bool {
    exists|st: Stages<S>|
        #[trigger] clustered(
            st,
            out,
            scores,
            l,
            a,
            b,
            width,
            height,
            p,
            min_area,
            summarise,
            spread,
            distance,
            affinity,
            score,
        )
}

/// The flood from the border pixels of clusters with a score above one half.
pub open spec fn border_flood<S, L: Fn(usize, usize) -> Scalar>(
    cs: Seq<Cluster<S>>,
    scores: Seq<Scalar>,
    n: int,
    width: u32,
    height: u32,
    p: SeparationParams,
    link: L,
) -> Seq<bool> {
    let raw = cluster_mask(cs, scores, Cutoff::Above(Scalar { bits: HALF_BITS }), n);
    flooded(
        mask_seeds(raw, width, height, p.border_band, p.bg_score_threshold),
        color_gate(link, p.bg_score_threshold),
        width as int,
    )
}

/// The complement of a mask.
pub open spec fn inverted(mask: Seq<bool>) -> Seq<bool> {
    Seq::new(mask.len(), |i: int| !mask[i])
}

/// The complement of a mask.
pub fn invert_mask(mask: &[bool]) -> (out: Vec<bool>)
    ensures
        out@ == inverted(mask@),
{
    let mut out: Vec<bool> = Vec::new();
    let mut i: usize = 0;
    while i < mask.len()
        invariant
            i <= mask@.len(),
            out@.len() == i,
            forall|k: int| #![trigger out@[k]] 0 <= k < i ==> out@[k] == !mask@[k],
        decreases mask@.len() - i,
    {
        out.push(!mask[i]);
        i += 1;
    }
    assert(out@ =~= inverted(mask@));
    out
}

fn no_clusters(n: usize) -> (v: Vec<Option<usize>>)
    ensures
        v@ == Seq::<Option<usize>>::new(n as nat, |i: int| None),
{
    let mut v: Vec<Option<usize>> = Vec::new();
    let mut i: usize = 0;
    while i < n
        invariant
            i <= n,
            v@.len() == i,
            forall|k: int| #![trigger v@[k]] 0 <= k < i ==> v@[k] is None,
        decreases n - i,
    {
        v.push(None);
        i += 1;
    }
    assert(v@ =~= Seq::<Option<usize>>::new(n as nat, |i: int| None));
    v
}

/// The flood starts at the pixels within the border band whose cluster scores more
/// than one half, where the threshold is at most one.
pub proof fn flood_starts_at_border_clusters<S, L: Fn(usize, usize) -> Scalar>(
    cs: Seq<Cluster<S>>,
    scores: Seq<Scalar>,
    n: int,
    width: u32,
    height: u32,
    p: SeparationParams,
    link: L,
    c: int,
    i: int,
)
    requires
        0 <= i < n <= usize::MAX,
        0 <= c < cs.len(),
        scores.len() == cs.len(),
        cs[c].indices@.contains(i as usize),
        forall|d: int|
            0 <= d < cs.len() && d != c ==> !(#[trigger] cs[d]).indices@.contains(i as usize),
        (Scalar { bits: 0x3FE0_0000_0000_0000 }).lt(scores[c]),
        p.bg_score_threshold.le(Scalar { bits: 0x3FF0_0000_0000_0000 }),
        ({
            let b = if p.border_band == 0 {
                1
            } else {
                p.border_band as int
            };
            let x = i % (width as int);
            let y = i / (width as int);
            x < b || y < b || width - x <= b || height - y <= b
        }),
    ensures
        border_flood(cs, scores, n, width, height, p, link)[i],
{
    clusters_decide_background(cs, scores, Scalar { bits: HALF_BITS }, c, i as usize);
    let raw = cluster_mask(cs, scores, Cutoff::Above(Scalar { bits: HALF_BITS }), n);
    assert(raw[i]);
    let seeds = mask_seeds(raw, width, height, p.border_band, p.bg_score_threshold);
    seed_reached(seeds, color_gate(link, p.bg_score_threshold), width as int, i);
}

/// From the background the flood goes on to every neighbour near in colour.
pub proof fn separation_goes_on<S, L: Fn(usize, usize) -> Scalar>(
    cs: Seq<Cluster<S>>,
    scores: Seq<Scalar>,
    n: int,
    width: u32,
    height: u32,
    p: SeparationParams,
    link: L,
    i: int,
    j: int,
)
    requires
        0 <= i < n,
        0 <= j < n,
        (j == i - 1 && i % (width as int) > 0) || (j == i + 1 && i % (width as int) + 1 < width)
            || j == i - width || j == i + width,
        border_flood(cs, scores, n, width, height, p, link)[i],
        color_gap(link, i as usize, j as usize).le(p.bg_score_threshold),
    ensures
        border_flood(cs, scores, n, width, height, p, link)[j],
{
    let raw = cluster_mask(cs, scores, Cutoff::Above(Scalar { bits: HALF_BITS }), n);
    let seeds = mask_seeds(raw, width, height, p.border_band, p.bg_score_threshold);
    let gate = color_gate(link, p.bg_score_threshold);
    assert(passes(gate, width as int, n, i, j));
    reached_spreads(seeds, gate, width as int, i, j);
}

/// Where no pixel within the border band belongs to a cluster that scores more
/// than one half, and the threshold is positive, there is no background.
pub proof fn no_background_without_border_clusters<S, L: Fn(usize, usize) -> Scalar>(
    cs: Seq<Cluster<S>>,
    scores: Seq<Scalar>,
    n: int,
    width: u32,
    height: u32,
    p: SeparationParams,
    link: L,
    i: int,
)
    requires
        0 <= i < n <= usize::MAX,
        (Scalar { bits: 0 }).lt(p.bg_score_threshold),
        scores.len() == cs.len(),
        forall|c: int|
            #![trigger scores[c]]
            0 <= c < cs.len() ==> !(Scalar { bits: 0x3FE0_0000_0000_0000 }).lt(scores[c]),
    ensures
        !border_flood(cs, scores, n, width, height, p, link)[i],
{
    let raw = cluster_mask(cs, scores, Cutoff::Above(Scalar { bits: HALF_BITS }), n);
    let seeds = mask_seeds(raw, width, height, p.border_band, p.bg_score_threshold);
    let gate = color_gate(link, p.bg_score_threshold);
    let none = Seq::new(n as nat, |k: int| false);
    assert forall|k: int| #![trigger seeds[k]] 0 <= k < seeds.len() && seeds[k] implies none[k] by {
        holder_within(cs, k, cs.len() as int);
        assert(!raw[k]);
    }
    if reached(seeds, gate, width as int, i) {
        flood_is_least(seeds, gate, width as int, none, i);
    }
}

proof fn holder_within<S>(cs: Seq<Cluster<S>>, p: int, k: int)
    requires
        0 <= k <= cs.len(),
    ensures
        match holder(cs, p, k) {
            Some(c) => 0 <= c < k && cs[c].indices@.contains(p as usize),
            None => true,
        },
    decreases k,
{
    if k > 0 {
        holder_within(cs, p, k - 1);
    }
}

/// No more clusters are kept than wanted: all where they are few, else the first
/// ones, to whose nearest every pixel goes.
pub proof fn clusters_are_limited<S, P: Fn(usize, &S) -> Scalar>(
    cs: Seq<Cluster<S>>,
    max: int,
    n: int,
    affinity: P,
    out: Seq<Cluster<S>>,
    c: int,
)
    requires
        limited(cs, max, n, affinity, out),
        1 <= max,
        0 <= c < out.len(),
    ensures
        out.len() <= max,
        out.len() == cs.len() || out.len() == max,
        out[c].summary == cs[c].summary,
        cs.len() <= max ==> out == cs,
{
}

/// Divides an image into colour clusters and separates its background.
///
/// Where the division is disabled there are no clusters and everything is
/// foreground.
pub fn partition_and_separate<
    S,
    F: Fn(&Vec<usize>) -> S,
    G: Fn(&S) -> Spread,
    D: Fn(&S, &S) -> Scalar,
    P: Fn(usize, &S) -> Scalar,
    Q: Fn(&S, usize, usize) -> Scalar,
    L: Fn(usize, usize) -> Scalar,
>(
    l: &[Scalar],
    a: &[Scalar],
    b: &[Scalar],
    width: u32,
    height: u32,
    p: &SeparationParams,
    min_area: usize,
    summarise: &F,
    spread: &G,
    distance: &D,
    affinity: &P,
    score: &Q,
    link: &L,
) -> (r: PartitionResult<S>)
    requires
        frame(width, height, l@.len() as int),
        a@.len() == l@.len(),
        b@.len() == l@.len(),
        all_numbers(l@),
        all_numbers(a@),
        all_numbers(b@),
        p.max_clusters >= 1,
        forall|v: &Vec<usize>| #[trigger] call_requires(*summarise, (v,)),
        forall|s: &S| #[trigger] call_requires(*spread, (s,)),
        is_distance(*distance),
        is_affinity(*affinity),
        forall|s: &S, a: usize, b: usize| a <= b ==> #[trigger] call_requires(*score, (s, a, b)),
        is_link(*link, l@.len() as int),
    ensures
        r.foreground@ == inverted(r.bg_mask_morph@),
        forall|i: int|
            #![trigger r.foreground@[i]]
            0 <= i < l@.len() ==> r.foreground@[i] == !r.bg_mask_morph@[i],
        r.bg_mask_morph@.len() == l@.len(),
        r.cluster_of@.len() == l@.len(),
        forall|i: int|
            #![trigger r.cluster_of@[i]]
            0 <= i < l@.len() ==> names_holder(r.cluster_of@, r.clusters@, i),
        l@.len() == 0 || !p.enabled ==> {
            &&& r.clusters@.len() == 0
            &&& r.scores@.len() == 0
            &&& r.bg_mask_raw@ == Seq::new(l@.len(), |i: int| false)
            &&& r.bg_mask_morph@ == Seq::new(l@.len(), |i: int| false)
        },
        l@.len() > 0 && p.enabled ==> {
            &&& is_clustered(
                r.clusters@,
                r.scores@,
                l@,
                a@,
                b@,
                width,
                height,
                *p,
                min_area as int,
                *summarise,
                *spread,
                *distance,
                *affinity,
                *score,
            )
            &&& r.bg_mask_raw@ == border_flood(
                r.clusters@,
                r.scores@,
                l@.len() as int,
                width,
                height,
                *p,
                *link,
            )
            &&& r.bg_mask_morph@ == cleaned(r.bg_mask_raw@, width as int, p.morphology)
        },
{
    let n = l.len();
    if n == 0 || !p.enabled {
        let raw = crate::background::none_marked(n);
        let morph = crate::background::none_marked(n);
        let foreground = invert_mask(&morph);
        return PartitionResult {
            clusters: Vec::new(),
            scores: Vec::new(),
            bg_mask_raw: raw,
            bg_mask_morph: morph,
            foreground,
            cluster_of: no_clusters(n),
        };
    }
    let all = crate::background::list_pixels(n);
    let ghost pixels = all@;
    let lim = CutLimits { max_depth: p.max_depth, variance_threshold: p.variance_threshold };
    let mut clusters: Vec<Cluster<S>> = Vec::new();
    median_cut_partition(l, a, b, all, 0, &lim, summarise, spread, &mut clusters);
    let ghost cut = clusters@;
    proof {
        assert(clusters@.skip(0) =~= clusters@);
        cuts_keep_pixels(l@, a@, b@, pixels, 0, lim, *summarise, *spread, cut);
    }
    merge_small_clusters(&mut clusters, min_area, summarise, distance);
    let ghost merged = clusters@;
    proof {
        if min_area >= 2 {
            merging_keeps_pixels(*summarise, *distance, cut, min_area as int, 0, merged);
        }
        clusters_made_of(merged, pixels, n as int);
    }
    let clusters = if clusters.len() > p.max_clusters {
        clusters.truncate(p.max_clusters);
        let ghost kept = clusters@;
        let out = reassign_indices(clusters, n, affinity);
        proof {
            assert(kept =~= merged.take(p.max_clusters as int));
            assert forall|c: int, k: int|
                #![trigger out@[c].indices@[k]]
                0 <= c < out@.len() && 0 <= k < out@[c].indices@.len() implies out@[c].indices@[k]
                < n by {
                assert(out@[c].indices@ == assigned(*affinity, kept, c, n as int));
                assigned_within(*affinity, kept, c, n as int);
            }
        }
        out
    } else {
        clusters
    };
    let border = border_mask(width, height, p.border_band);
    assert(border@ =~= border_flags(width, height, p.border_band));
    let scores = score_clusters(&clusters, &border, score);
    let cutoff = Cutoff::Above(Scalar::new(HALF_BITS));
    assert(cutoff == Cutoff::Above(Scalar { bits: HALF_BITS }));
    let raw = clusters_to_bg_mask(&clusters, &scores, n, &cutoff);
    assert(raw@ =~= cluster_mask(clusters@, scores@, cutoff, n as int));
    let bg_mask_raw = flood_from_mask(
        &raw,
        width,
        height,
        p.border_band,
        p.bg_score_threshold,
        link,
    );
    let start = crate::background::copy_mask(&bg_mask_raw);
    let bg_mask_morph = clean_mask(start, width, height, &p.morphology);
    let foreground = invert_mask(&bg_mask_morph);
    let cluster_of = cluster_map(&clusters, n);
    proof {
        let st = Stages { cut, merged };
        assert(clustered(
            st,
            clusters@,
            scores@,
            l@,
            a@,
            b@,
            width,
            height,
            *p,
            min_area as int,
            *summarise,
            *spread,
            *distance,
            *affinity,
            *score,
        ));
    }
    PartitionResult { clusters, scores, bg_mask_raw, bg_mask_morph, foreground, cluster_of }
}

/// Before their number is limited, the clusters hold every pixel of the image just
/// once, and where one is large enough to begin with, none is below the least area.
pub proof fn merged_clusters_hold_all<
    S,
    F: Fn(&Vec<usize>) -> S,
    G: Fn(&S) -> Spread,
    D: Fn(&S, &S) -> Scalar,
    P: Fn(usize, &S) -> Scalar,
    Q: Fn(&S, usize, usize) -> Scalar,
>(
    st: Stages<S>,
    out: Seq<Cluster<S>>,
    scores: Seq<Scalar>,
    l: Seq<Scalar>,
    a: Seq<Scalar>,
    b: Seq<Scalar>,
    width: u32,
    height: u32,
    p: SeparationParams,
    min_area: int,
    summarise: F,
    spread: G,
    distance: D,
    affinity: P,
    score: Q,
    large: int,
    c: int,
)
    requires
        clustered(
            st,
            out,
            scores,
            l,
            a,
            b,
            width,
            height,
            p,
            min_area,
            summarise,
            spread,
            distance,
            affinity,
            score,
        ),
        0 <= c < st.merged.len(),
    ensures
        all_pixels(st.merged).to_multiset() == Seq::new(
            l.len(),
            |i: int| i as usize,
        ).to_multiset(),
        scores.len() == out.len(),
        min_area >= 2 && 0 <= large < st.cut.len() && st.cut[large].indices@.len() >= min_area && (
        forall|x: S, y: S| (#[trigger] apart(distance, x, y)).lt(Scalar { bits: MAX_BITS }))
            ==> st.merged[c].indices@.len() >= min_area,
{
    let lim = CutLimits { max_depth: p.max_depth, variance_threshold: p.variance_threshold };
    let every = every_pixel(l.len() as int);
    assert(every =~= Seq::new(l.len(), |i: int| i as usize));
    cuts_keep_pixels(l, a, b, every, 0, lim, summarise, spread, st.cut);
    if min_area >= 2 {
        merging_keeps_pixels(summarise, distance, st.cut, min_area, 0, st.merged);
        if 0 <= large < st.cut.len() && st.cut[large].indices@.len() >= min_area && (forall|
            x: S,
            y: S,
        | (#[trigger] apart(distance, x, y)).lt(Scalar { bits: MAX_BITS })) {
            small_clusters_vanish(summarise, distance, st.cut, min_area, 0, st.merged, large, c);
        }
    }
}

} // verus!
