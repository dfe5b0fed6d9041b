//! Telling the background of an image: clusters by their place on the border, a
//! flood from the border over similar pixels, and a clean-up of the mask.

use vstd::prelude::*;
use crate::border::{
    band_width, background_by, border_mask, clusters_to_bg_mask, on_border, score_clusters, scored,
    Cutoff,
};
use crate::clusters::{
    apart, is_distance, merge_small_clusters, merged_small, merging_keeps_pixels,
    reduce_cluster_count, reduced, reducing_keeps_large, reducing_keeps_pixels,
    reducing_reaches_count, small_clusters_vanish,
};
use crate::flood::{
    answers, flood, flood_is_least, passes, reached, reached_spreads, seed_reached,
};
use crate::morphology::{clean_mask, cleaned, cleaning_keeps_length};
use crate::params::{ColorPartitionParams, MorphologyParams};
use crate::partition::{
    cut_into, cuts_keep_pixels, median_cut_partition, Cluster, CutLimits, Spread,
};
use crate::quantile::all_numbers;
use crate::region::frame;
use crate::scalar::{all_unit, Scalar, MAX_BITS, ONE_BITS};
use crate::softmask::{
    background_features, features_are_units, features_of_mask, gives_numbers, mark_value,
    BackgroundFeatures, PartitionWeight,
};

verus! {

/// What stops the flood.
#[derive(Clone, Copy, Debug)]
pub struct BackgroundFloodBarrierParams {
    pub enabled: bool,
    /// Border likeness above which a pixel may be background.
    pub color_threshold: Scalar,
    /// Border likeness from which nothing stops the flood.
    pub barrier_color_relax_threshold: Scalar,
    pub grad_stop: Scalar,
    pub dct_stop: Scalar,
    pub local_light_stop: Scalar,
    pub spectral_stop: Scalar,
}

/// The feature maps that can stop the flood.
pub struct BackgroundFeatureInputs<'a> {
    pub dct: &'a [Scalar],
    pub lab_grad: &'a [Scalar],
    pub spectral: &'a [Scalar],
    pub local_light: &'a [Scalar],
}

/// The value at `i`, or zero where there is none.
pub open spec fn value_or_zero(s: Seq<Scalar>, i: int) -> Scalar {
    if 0 <= i < s.len() {
        s[i]
    } else {
        Scalar { bits: 0 }
    }
}

fn at_or_zero(s: &[Scalar], i: usize) -> (v: Scalar)
    ensures
        v == value_or_zero(s@, i as int),
{
    if i < s.len() {
        s[i]
    } else {
        Scalar::zero()
    }
}

/// The pixels that look like the border.
pub fn build_bg_candidate(border_bg: &[Scalar], color_threshold: Scalar) -> (mask: Vec<bool>)
    ensures
        mask@.len() == border_bg@.len(),
        forall|i: int|
            #![trigger mask@[i]]
            0 <= i < mask@.len() ==> mask@[i] == color_threshold.lt(border_bg@[i]),
{
    let mut mask: Vec<bool> = Vec::new();
    let mut i: usize = 0;
    while i < border_bg.len()
        invariant
            i <= border_bg@.len(),
            mask@.len() == i,
            forall|k: int|
                #![trigger mask@[k]]
                0 <= k < i ==> mask@[k] == color_threshold.lt(border_bg@[k]),
        decreases border_bg@.len() - i,
    {
        mask.push(color_threshold.less(&border_bg[i]));
        i += 1;
    }
    mask
}

/// Pixel `i` stops the flood: it is not too much like the border, and one of its
/// features is strong.
pub open spec fn bars(
    f: BackgroundFeatureInputs,
    border_bg: Seq<Scalar>,
    p: BackgroundFloodBarrierParams,
    i: int,
) -> bool {
    &&& p.enabled
    &&& !p.barrier_color_relax_threshold.le(value_or_zero(border_bg, i))
    &&& {
        ||| p.grad_stop.lt(value_or_zero(f.lab_grad@, i))
        ||| p.dct_stop.lt(value_or_zero(f.dct@, i))
        ||| p.local_light_stop.lt(value_or_zero(f.local_light@, i))
        ||| p.spectral_stop.lt(value_or_zero(f.spectral@, i))
    }
}

/// The pixels that stop the flood, one flag for each value of `lab_grad`.
pub fn build_flood_barrier(
    features: &BackgroundFeatureInputs,
    border_bg: &[Scalar],
    params: &BackgroundFloodBarrierParams,
) -> (mask: Vec<bool>)
    ensures
        mask@.len() == features.lab_grad@.len(),
        forall|i: int|
            #![trigger mask@[i]]
            0 <= i < mask@.len() ==> mask@[i] == bars(*features, border_bg@, *params, i),
        params.enabled ==> forall|i: int|
            #![trigger mask@[i]]
            0 <= i < mask@.len() && (i >= border_bg@.len() || border_bg@[i].lt(
                params.barrier_color_relax_threshold,
            )) && (params.grad_stop.lt(features.lab_grad@[i]) || (i < features.dct@.len()
                && params.dct_stop.lt(features.dct@[i])) || (i < features.local_light@.len()
                && params.local_light_stop.lt(features.local_light@[i])) || (i
                < features.spectral@.len() && params.spectral_stop.lt(features.spectral@[i]))) && (i
                < border_bg@.len() || (Scalar { bits: 0 }).lt(params.barrier_color_relax_threshold))
                ==> mask@[i],
{
    let n = features.lab_grad.len();
    let mut mask: Vec<bool> = Vec::new();
    let mut i: usize = 0;
    while i < n
        invariant
            i <= n,
            n == features.lab_grad@.len(),
            mask@.len() == i,
            forall|k: int|
                #![trigger mask@[k]]
                0 <= k < i ==> mask@[k] == bars(*features, border_bg@, *params, k),
        decreases n - i,
    {
        let stop: bool = params.enabled && !params.barrier_color_relax_threshold.at_most(
            &at_or_zero(border_bg, i),
        ) && (params.grad_stop.less(&at_or_zero(features.lab_grad, i)) || params.dct_stop.less(
            &at_or_zero(features.dct, i),
        ) || params.local_light_stop.less(&at_or_zero(features.local_light, i))
            || params.spectral_stop.less(&at_or_zero(features.spectral, i)));
        mask.push(stop);
        i += 1;
    }
    mask
}

/// `link` measures every two pixels of an image of `n`, always the same.
pub open spec fn is_link<L: Fn(usize, usize) -> Scalar>(link: L, n: int) -> bool {
    &&& forall|i: usize, j: usize| i < n && j < n ==> #[trigger] call_requires(link, (i, j))
    &&& forall|i: usize, j: usize, a: Scalar, b: Scalar|
        #![trigger call_ensures(link, (i, j), a), call_ensures(link, (i, j), b)]
        call_ensures(link, (i, j), a) && call_ensures(link, (i, j), b) ==> a == b
}

/// The colour distance of two pixels.
pub open spec fn color_gap<L: Fn(usize, usize) -> Scalar>(
    link: L,
    i: usize,
    j: usize,
) -> Scalar {
    choose|r: Scalar| call_ensures(link, (i, j), r)
}

/// The flood passes to candidates that do not stop it and are close in colour.
pub open spec fn candidate_gate<L: Fn(usize, usize) -> Scalar>(
    candidate: Seq<bool>,
    barrier: Seq<bool>,
    link: L,
    limit: Scalar,
) -> spec_fn(int, int) -> bool {
    |i: int, j: int| candidate[j] && !barrier[j] && color_gap(link, i as usize, j as usize).le(limit)
}

/// The candidates on the border.
pub open spec fn border_seeds(
    candidate: Seq<bool>,
    width: u32,
    height: u32,
    border_band: u32,
) -> Seq<bool> {
    Seq::new(
        candidate.len(),
        |i: int| candidate[i] && on_border(width, height, band_width(border_band), i),
    )
}

/// The pixels that a flood reaches.
pub open spec fn flooded(seeds: Seq<bool>, gate: spec_fn(int, int) -> bool, w: int) -> Seq<bool> {
    Seq::new(seeds.len(), |i: int| reached(seeds, gate, w, i))
}

fn seeds_on_border(candidate: &[bool], width: u32, height: u32, border_band: u32) -> (seeds: Vec<
    bool,
>)
    requires
        frame(width, height, candidate@.len() as int),
    ensures
        seeds@ == border_seeds(candidate@, width, height, border_band),
{
    let border = border_mask(width, height, border_band);
    let mut seeds: Vec<bool> = Vec::new();
    let mut i: usize = 0;
    while i < candidate.len()
        invariant
            i <= candidate@.len(),
            border@.len() == candidate@.len(),
            forall|k: int|
                #![trigger border@[k]]
                0 <= k < border@.len() ==> border@[k] == on_border(
                    width,
                    height,
                    band_width(border_band),
                    k,
                ),
            seeds@.len() == i,
            forall|k: int|
                #![trigger seeds@[k]]
                0 <= k < i ==> seeds@[k] == border_seeds(
                    candidate@,
                    width,
                    height,
                    border_band,
                )[k],
        decreases candidate@.len() - i,
    {
        seeds.push(candidate[i] && border[i]);
        i += 1;
    }
    assert(seeds@ =~= border_seeds(candidate@, width, height, border_band));
    seeds
}

pub fn close_in_color<L: Fn(usize, usize) -> Scalar>(
    link: &L,
    i: usize,
    j: usize,
    limit: Scalar,
    n: usize,
) -> (r: bool)
    requires
        is_link(*link, n as int),
        i < n,
        j < n,
    ensures
        r == color_gap(*link, i, j).le(limit),
{
    let d = (*link)(i, j);
    assert(d == color_gap(*link, i, j));
    d.at_most(&limit)
}

/// The background connected to the border: what a flood from the candidates on
/// the border reaches over candidates that do not stop it and lie close in
/// colour.
pub fn bfs_connected_bg<L: Fn(usize, usize) -> Scalar>(
    candidate: &[bool],
    barrier: &[bool],
    width: u32,
    height: u32,
    border_band: u32,
    limit: Scalar,
    link: &L,
) -> (mask: Vec<bool>)
    requires
        frame(width, height, candidate@.len() as int),
        barrier@.len() == candidate@.len(),
        is_link(*link, candidate@.len() as int),
    ensures
        mask@ == flooded(
            border_seeds(candidate@, width, height, border_band),
            candidate_gate(candidate@, barrier@, *link, limit),
            width as int,
        ),
{
    let ghost n = candidate@.len() as int;
    let ghost w = width as int;
    let seeds = seeds_on_border(candidate, width, height, border_band);
    let ghost gate = candidate_gate(candidate@, barrier@, *link, limit);
    let size = candidate.len();
    let open = |i: usize, j: usize| -> (r: bool)
        requires
            i < n,
            j < n,
        ensures
            r == gate(i as int, j as int),
        {
            if !candidate[j] || barrier[j] {
                return false;
            }
            close_in_color(link, i, j, limit, size)
        };
    assert(answers(open, gate, n));
    let mask = flood(&seeds, width, height, &open, Ghost(gate));
    assert(mask@ =~= flooded(seeds@, gate, w));
    mask
}

/// `ratio` answers for every two counts, always the same.
pub open spec fn is_ratio<R: Fn(usize, usize) -> Scalar>(ratio: R) -> bool {
    &&& forall|a: usize, b: usize| b > 0 ==> #[trigger] call_requires(ratio, (a, b))
    &&& forall|a: usize, b: usize, r: Scalar, s: Scalar|
        #![trigger call_ensures(ratio, (a, b), r), call_ensures(ratio, (a, b), s)]
        call_ensures(ratio, (a, b), r) && call_ensures(ratio, (a, b), s) ==> r == s
}

/// The share that `a` is of `b`.
pub open spec fn share<R: Fn(usize, usize) -> Scalar>(ratio: R, a: usize, b: usize) -> Scalar {
    choose|r: Scalar| call_ensures(ratio, (a, b), r)
}

/// Number of pixels below `k` in the mask.
pub open spec fn count_true(mask: Seq<bool>, k: int) -> nat
    decreases k,
{
    if k <= 0 {
        0
    } else {
        count_true(mask, k - 1) + if mask[k - 1] {
            1nat
        } else {
            0nat
        }
    }
}

/// Number of pixels in the mask.
pub fn mask_count(mask: &[bool]) -> (count: usize)
    ensures
        count == count_true(mask@, mask@.len() as int),
        count <= mask@.len(),
{
    let mut count: usize = 0;
    let mut i: usize = 0;
    while i < mask.len()
        invariant
            i <= mask@.len(),
            count == count_true(mask@, i as int),
            count <= i,
        decreases mask@.len() - i,
    {
        if mask[i] {
            count += 1;
        }
        i += 1;
    }
    count
}

/// The mask, unless it covers more than `max` of the image: then `fallback`.
pub open spec fn guarded<R: Fn(usize, usize) -> Scalar>(
    mask: Seq<bool>,
    fallback: Seq<bool>,
    max: Scalar,
    ratio: R,
) -> Seq<bool> {
    let n = mask.len();
    if max.lt(share(ratio, count_true(mask, n as int) as usize, n as usize)) {
        fallback
    } else {
        mask
    }
}

pub fn copy_mask(mask: &[bool]) -> (out: Vec<bool>)
    ensures
        out@ == mask@,
{
    let mut out: Vec<bool> = Vec::new();
    let mut i: usize = 0;
    while i < mask.len()
        invariant
            i <= mask@.len(),
            out@ == mask@.take(i as int),
        decreases mask@.len() - i,
    {
        out.push(mask[i]);
        assert(out@ =~= mask@.take(i + 1));
        i += 1;
    }
    assert(mask@.take(mask@.len() as int) =~= mask@);
    out
}

fn guard_mask<R: Fn(usize, usize) -> Scalar>(
    mask: Vec<bool>,
    fallback: &[bool],
    max: Scalar,
    ratio: &R,
) -> (out: Vec<bool>)
    requires
        mask@.len() > 0,
        is_ratio(*ratio),
    ensures
        out@ == guarded(mask@, fallback@, max, *ratio),
{
    let count = mask_count(&mask);
    let n = mask.len();
    let v = (*ratio)(count, n);
    assert(v == share(*ratio, count, n));
    if max.less(&v) {
        copy_mask(fallback)
    } else {
        mask
    }
}

/// The background mask: the flood from the border, cleaned up; the clusters'
/// mask wherever the flood or its clean-up cover too much of the image.
pub open spec fn settled<L: Fn(usize, usize) -> Scalar, R: Fn(usize, usize) -> Scalar>(
    raw: Seq<bool>,
    candidate: Seq<bool>,
    barrier: Seq<bool>,
    width: u32,
    height: u32,
    p: ColorPartitionParams,
    morph: MorphologyParams,
    link: L,
    ratio: R,
) -> Seq<bool> {
    let w = width as int;
    let flood = flooded(
        border_seeds(candidate, width, height, p.border_band),
        candidate_gate(candidate, barrier, link, p.bg_connect_threshold),
        w,
    );
    let connected = guarded(flood, raw, p.max_bg_ratio, ratio);
    guarded(cleaned(connected, w, morph), raw, p.max_bg_ratio, ratio)
}

/// Settles the background mask from the clusters' mask, the candidates and what
/// stops the flood.
pub fn settle_background<L: Fn(usize, usize) -> Scalar, R: Fn(usize, usize) -> Scalar>(
    raw: &[bool],
    candidate: &[bool],
    barrier: &[bool],
    width: u32,
    height: u32,
    p: &ColorPartitionParams,
    morph: &MorphologyParams,
    link: &L,
    ratio: &R,
) -> (mask: Vec<bool>)
    requires
        candidate@.len() > 0,
        frame(width, height, candidate@.len() as int),
        barrier@.len() == candidate@.len(),
        raw@.len() == candidate@.len(),
        is_link(*link, candidate@.len() as int),
        is_ratio(*ratio),
    ensures
        mask@ == settled(
            raw@,
            candidate@,
            barrier@,
            width,
            height,
            *p,
            *morph,
            *link,
            *ratio,
        ),
        mask@.len() == raw@.len(),
{
    let flood_mask = bfs_connected_bg(
        candidate,
        barrier,
        width,
        height,
        p.border_band,
        p.bg_connect_threshold,
        link,
    );
    let connected = guard_mask(flood_mask, raw, p.max_bg_ratio, ratio);
    let clean = clean_mask(connected, width, height, morph);
    guard_mask(clean, raw, p.max_bg_ratio, ratio)
}

/// A pixel that is less like the border than the relaxing threshold stops the flood
/// by any single strong feature: by its gradient, its texture, its local light or
/// its spectral saliency.
pub proof fn each_feature_bars(
    f: BackgroundFeatureInputs,
    border_bg: Seq<Scalar>,
    p: BackgroundFloodBarrierParams,
    i: int,
)
    requires
        p.enabled,
        0 <= i < border_bg.len(),
        border_bg[i].lt(p.barrier_color_relax_threshold),
        (i < f.lab_grad@.len() && p.grad_stop.lt(f.lab_grad@[i])) || (i < f.dct@.len()
            && p.dct_stop.lt(f.dct@[i])) || (i < f.local_light@.len() && p.local_light_stop.lt(
            f.local_light@[i],
        )) || (i < f.spectral@.len() && p.spectral_stop.lt(f.spectral@[i])),
    ensures
        bars(f, border_bg, p, i),
{
}

/// What stops the flood is less like the border than the relaxing threshold and
/// has a feature above its stop; nothing stops it where the barrier is off, nor
/// where the pixel is like the border.
pub proof fn barriers_have_a_feature(
    f: BackgroundFeatureInputs,
    border_bg: Seq<Scalar>,
    p: BackgroundFloodBarrierParams,
    i: int,
)
    requires
        0 <= i < border_bg.len(),
        f.lab_grad@.len() == border_bg.len(),
        f.dct@.len() == border_bg.len(),
        f.local_light@.len() == border_bg.len(),
        f.spectral@.len() == border_bg.len(),
        bars(f, border_bg, p, i),
    ensures
        p.enabled,
        !p.barrier_color_relax_threshold.le(border_bg[i]),
        p.grad_stop.lt(f.lab_grad@[i]) || p.dct_stop.lt(f.dct@[i]) || p.local_light_stop.lt(
            f.local_light@[i],
        ) || p.spectral_stop.lt(f.spectral@[i]),
{
}

/// The candidates within the border band are background.
pub proof fn flood_starts_on_border<L: Fn(usize, usize) -> Scalar>(
    candidate: Seq<bool>,
    barrier: Seq<bool>,
    width: u32,
    height: u32,
    border_band: u32,
    limit: Scalar,
    link: L,
    i: int,
)
    requires
        0 <= i < candidate.len(),
        candidate[i],
        ({
            let b = if border_band == 0 {
                1
            } else {
                border_band as int
            };
            let x = i % (width as int);
            let y = i / (width as int);
            x < b || y < b || width - x <= b || height - y <= b
        }),
    ensures
        flooded(
            border_seeds(candidate, width, height, border_band),
            candidate_gate(candidate, barrier, link, limit),
            width as int,
        )[i],
{
    let seeds = border_seeds(candidate, width, height, border_band);
    seed_reached(seeds, candidate_gate(candidate, barrier, link, limit), width as int, i);
}

/// From the background the flood goes on to every neighbour that is a candidate, is
/// no barrier, and is near in colour.
pub proof fn flood_goes_on<L: Fn(usize, usize) -> Scalar>(
    candidate: Seq<bool>,
    barrier: Seq<bool>,
    width: u32,
    height: u32,
    border_band: u32,
    limit: Scalar,
    link: L,
    i: int,
    j: int,
)
    requires
        0 <= i < candidate.len(),
        0 <= j < candidate.len(),
        (j == i - 1 && i % (width as int) > 0) || (j == i + 1 && i % (width as int) + 1 < width)
            || j == i - width || j == i + width,
        flooded(
            border_seeds(candidate, width, height, border_band),
            candidate_gate(candidate, barrier, link, limit),
            width as int,
        )[i],
        candidate[j],
        !barrier[j],
        color_gap(link, i as usize, j as usize).le(limit),
    ensures
        flooded(
            border_seeds(candidate, width, height, border_band),
            candidate_gate(candidate, barrier, link, limit),
            width as int,
        )[j],
{
    let seeds = border_seeds(candidate, width, height, border_band);
    let gate = candidate_gate(candidate, barrier, link, limit);
    assert(passes(gate, width as int, seeds.len() as int, i, j));
    reached_spreads(seeds, gate, width as int, i, j);
}

/// The flood goes nowhere else: a set that holds the candidates within the border
/// band, and with every pixel its neighbours that are candidates, no barriers, and
/// near in colour, holds all of the background.
pub proof fn flood_goes_nowhere_else<L: Fn(usize, usize) -> Scalar>(
    candidate: Seq<bool>,
    barrier: Seq<bool>,
    width: u32,
    height: u32,
    border_band: u32,
    limit: Scalar,
    link: L,
    set: Seq<bool>,
    i: int,
)
    requires
        set.len() == candidate.len(),
        forall|k: int|
            #![trigger set[k]]
            0 <= k < candidate.len() && candidate[k] && ({
                let b = if border_band == 0 {
                    1
                } else {
                    border_band as int
                };
                let x = k % (width as int);
                let y = k / (width as int);
                x < b || y < b || width - x <= b || height - y <= b
            }) ==> set[k],
        forall|k: int, m: int|
            #![trigger set[k], set[m]]
            0 <= k < candidate.len() && 0 <= m < candidate.len() && ((m == k - 1 && k % (
            width as int) > 0) || (m == k + 1 && k % (width as int) + 1 < width) || m == k - width
                || m == k + width) && set[k] && candidate[m] && !barrier[m] && color_gap(
                link,
                k as usize,
                m as usize,
            ).le(limit) ==> set[m],
        0 <= i < candidate.len(),
        flooded(
            border_seeds(candidate, width, height, border_band),
            candidate_gate(candidate, barrier, link, limit),
            width as int,
        )[i],
    ensures
        set[i],
{
    let seeds = border_seeds(candidate, width, height, border_band);
    let gate = candidate_gate(candidate, barrier, link, limit);
    let w = width as int;
    assert forall|k: int| #![trigger seeds[k]] 0 <= k < seeds.len() && seeds[k] implies set[k] by {
        assert(set[k] == set[k]);
    }
    assert forall|k: int, m: int| #[trigger]
        passes(gate, w, seeds.len() as int, k, m) && set[k] implies set[m] by {
        assert(set[m] == set[m]);
    }
    flood_is_least(seeds, gate, w, set, i);
}

/// Only candidates are background, and a barrier only within the border band.
pub proof fn flood_takes_candidates<L: Fn(usize, usize) -> Scalar>(
    candidate: Seq<bool>,
    barrier: Seq<bool>,
    width: u32,
    height: u32,
    border_band: u32,
    limit: Scalar,
    link: L,
    i: int,
)
    requires
        barrier.len() == candidate.len(),
        0 <= i < candidate.len(),
        flooded(
            border_seeds(candidate, width, height, border_band),
            candidate_gate(candidate, barrier, link, limit),
            width as int,
        )[i],
    ensures
        candidate[i],
        barrier[i] ==> ({
            let b = if border_band == 0 {
                1
            } else {
                border_band as int
            };
            let x = i % (width as int);
            let y = i / (width as int);
            x < b || y < b || width - x <= b || height - y <= b
        }),
{
    let set = Seq::new(
        candidate.len(),
        |k: int|
            {
                let b = if border_band == 0 {
                    1
                } else {
                    border_band as int
                };
                let x = k % (width as int);
                let y = k / (width as int);
                candidate[k] && (!barrier[k] || x < b || y < b || width - x <= b || height - y <= b)
            },
    );
    flood_goes_nowhere_else(
        candidate,
        barrier,
        width,
        height,
        border_band,
        limit,
        link,
        set,
        i,
    );
}

/// A mask and its complement count all positions together.
pub proof fn counts_complement(mask: Seq<bool>, k: int)
    requires
        0 <= k <= mask.len(),
    ensures
        count_true(mask, k) + count_true(Seq::new(mask.len(), |i: int| !mask[i]), k) == k,
        count_true(mask, k) == 0 <==> forall|i: int| #![trigger mask[i]] 0 <= i < k ==> !mask[i],
    decreases k,
{
    if k > 0 {
        counts_complement(mask, k - 1);
        if count_true(mask, k) == 0 {
            assert(!mask[k - 1]);
        } else if forall|i: int| #![trigger mask[i]] 0 <= i < k ==> !mask[i] {
            assert(!mask[k - 1]);
        }
    }
}

/// The settled background never takes more than the greatest share, unless it is
/// the raw one; it is the cleaned flood where neither the flood nor what cleaning
/// makes of it takes more.
pub proof fn settled_background_is_bounded<
    L: Fn(usize, usize) -> Scalar,
    R: Fn(usize, usize) -> Scalar,
>(
    raw: Seq<bool>,
    candidate: Seq<bool>,
    barrier: Seq<bool>,
    width: u32,
    height: u32,
    p: ColorPartitionParams,
    morph: MorphologyParams,
    link: L,
    ratio: R,
)
    requires
        raw.len() == candidate.len(),
    ensures
        ({
            let n = candidate.len();
            let w = width as int;
            let out = settled(raw, candidate, barrier, width, height, p, morph, link, ratio);
            let flood = flooded(
                border_seeds(candidate, width, height, p.border_band),
                candidate_gate(candidate, barrier, link, p.bg_connect_threshold),
                w,
            );
            let taken = |m: Seq<bool>|
                p.max_bg_ratio.lt(share(ratio, count_true(m, n as int) as usize, n as usize));
            &&& out == raw || !taken(out)
            &&& !taken(flood) && !taken(cleaned(flood, w, morph)) ==> out == cleaned(
                flood,
                w,
                morph,
            )
            &&& taken(flood) && !taken(cleaned(raw, w, morph)) ==> out == cleaned(raw, w, morph)
            &&& !taken(flood) && taken(cleaned(flood, w, morph)) ==> out == raw
        }),
{
    let w = width as int;
    let flood = flooded(
        border_seeds(candidate, width, height, p.border_band),
        candidate_gate(candidate, barrier, link, p.bg_connect_threshold),
        w,
    );
    cleaning_keeps_length(flood, w, morph);
    cleaning_keeps_length(raw, w, morph);
}

/// Settings of the background.
#[derive(Clone, Copy, Debug)]
pub struct BackgroundParams {
    pub partition: ColorPartitionParams,
    pub morphology: MorphologyParams,
    pub flood_barrier: BackgroundFloodBarrierParams,
}

/// The masks that lead to the background.
#[derive(Clone, Debug)]
pub struct BackgroundMasks {
    /// Pixels that look like the border.
    pub bg_candidate: Vec<bool>,
    /// Pixels that stop the flood.
    pub bg_barrier: Vec<bool>,
    /// The background.
    pub bg_mask: Vec<bool>,
}

/// The stages from all pixels to scored clusters.
pub ghost struct ClusterStages<S> {
    pub cut: Seq<Cluster<S>>,
    pub merged: Seq<Cluster<S>>,
    pub reduced: Seq<Cluster<S>>,
    pub scores: Seq<Scalar>,
}

/// The pixels of an image, in order.
pub open spec fn every_pixel(n: int) -> Seq<usize> {
    Seq::new(n as nat, |i: int| i as usize)
}

/// Small clusters go into others, unless the least area is below 2.
pub open spec fn without_small<S, F: Fn(&Vec<usize>) -> S, D: Fn(&S, &S) -> Scalar>(
    summarise: F,
    distance: D,
    cs: Seq<Cluster<S>>,
    min_area: int,
    out: Seq<Cluster<S>>,
) -> bool {
    if min_area < 2 {
        out == cs
    } else {
        merged_small(summarise, distance, cs, min_area, 0, out)
    }
}

/// The border mask as a sequence.
pub open spec fn border_flags(width: u32, height: u32, border_band: u32) -> Seq<bool> {
    Seq::new(
        (width * height) as nat,
        |i: int| on_border(width, height, band_width(border_band), i),
    )
}

/// The clusters come from cutting all pixels, merging small clusters and
/// reducing their number; the scores from their place on the border.
pub open spec fn clustered<
    S,
    F: Fn(&Vec<usize>) -> S,
    G: Fn(&S) -> Spread,
    D: Fn(&S, &S) -> Scalar,
    Q: Fn(&S, usize, usize) -> Scalar,
>(
    st: ClusterStages<S>,
    l: Seq<Scalar>,
    a: Seq<Scalar>,
    b: Seq<Scalar>,
    width: u32,
    height: u32,
    p: ColorPartitionParams,
    min_area: int,
    summarise: F,
    spread: G,
    distance: D,
    score: Q,
) -> bool {
    let lim = CutLimits { max_depth: p.max_depth, variance_threshold: p.variance_threshold };
    let max = if p.max_clusters >= 1 {
        p.max_clusters as int
    } else {
        1
    };
    &&& cut_into(l, a, b, every_pixel(l.len() as int), 0, lim, summarise, spread, st.cut)
    &&& without_small(summarise, distance, st.cut, min_area, st.merged)
    &&& reduced(summarise, distance, st.merged, max, st.reduced)
    &&& st.scores.len() == st.reduced.len()
    &&& forall|c: int|
        #![trigger st.scores[c]]
        0 <= c < st.scores.len() ==> scored(
            score,
            st.reduced[c],
            border_flags(width, height, p.border_band),
            st.scores[c],
        )
}

/// The mask of the clusters that count as background.
pub open spec fn cluster_mask<S>(
    cs: Seq<Cluster<S>>,
    scores: Seq<Scalar>,
    cutoff: Cutoff,
    n: int,
) -> Seq<bool> {
    Seq::new(n as nat, |i: int| background_by(cs, scores, cutoff, i))
}

pub fn list_pixels(n: usize) -> (v: Vec<usize>)
    ensures
        v@ == every_pixel(n as int),
{
    let mut v: Vec<usize> = Vec::new();
    let mut i: usize = 0;
    while i < n
        invariant
            i <= n,
            v@.len() == i,
            forall|k: int| #![trigger v@[k]] 0 <= k < i ==> v@[k] == k,
        decreases n - i,
    {
        v.push(i);
        i += 1;
    }
    assert(v@ =~= every_pixel(n as int));
    v
}

pub fn none_marked(n: usize) -> (v: Vec<bool>)
    ensures
        v@ == Seq::new(n as nat, |i: int| false),
{
    let mut v: Vec<bool> = Vec::new();
    let mut i: usize = 0;
    while i < n
        invariant
            i <= n,
            v@.len() == i,
            forall|k: int| #![trigger v@[k]] 0 <= k < i ==> !v@[k],
        decreases n - i,
    {
        v.push(false);
        i += 1;
    }
    assert(v@ =~= Seq::new(n as nat, |i: int| false));
    v
}

/// `r` holds the masks of an image's background: candidates by their likeness to
/// the border, the barrier of structure, and the mask that settles from the
/// colour clusters.
pub open spec fn masks_of<
    S,
    F: Fn(&Vec<usize>) -> S,
    G: Fn(&S) -> Spread,
    D: Fn(&S, &S) -> Scalar,
    Q: Fn(&S, usize, usize) -> Scalar,
    L: Fn(usize, usize) -> Scalar,
    R: Fn(usize, usize) -> Scalar,
>(
    l: Seq<Scalar>,
    a: Seq<Scalar>,
    b: Seq<Scalar>,
    border_bg: Seq<Scalar>,
    features: BackgroundFeatureInputs,
    width: u32,
    height: u32,
    params: BackgroundParams,
    min_area: int,
    summarise: F,
    spread: G,
    distance: D,
    score: Q,
    link: L,
    ratio: R,
    r: BackgroundMasks,
) -> bool {
    let n = l.len() as int;
    let p = params.partition;
    &&& r.bg_candidate@ == Seq::new(
        n as nat,
        |i: int| params.flood_barrier.color_threshold.lt(border_bg[i]),
    )
    &&& r.bg_barrier@ == Seq::new(
        n as nat,
        |i: int| bars(features, border_bg, params.flood_barrier, i),
    )
    &&& exists|st: ClusterStages<S>|
        {
            &&& #[trigger] clustered(
                st,
                l,
                a,
                b,
                width,
                height,
                p,
                min_area,
                summarise,
                spread,
                distance,
                score,
            )
            &&& r.bg_mask@ == settled(
                cluster_mask(st.reduced, st.scores, Cutoff::AtLeast(p.bg_score_threshold), n),
                r.bg_candidate@,
                r.bg_barrier@,
                width,
                height,
                p,
                params.morphology,
                link,
                ratio,
            )
        }
}

/// The masks of an image's background.
///
/// `border_bg` is how much each pixel looks like the border; `min_area` is the
/// least size of a colour cluster in pixels. Nothing is background where the
/// division into clusters is disabled.
pub fn background_masks<
    S,
    F: Fn(&Vec<usize>) -> S,
    G: Fn(&S) -> Spread,
    D: Fn(&S, &S) -> Scalar,
    Q: Fn(&S, usize, usize) -> Scalar,
    L: Fn(usize, usize) -> Scalar,
    R: Fn(usize, usize) -> Scalar,
>(
    l: &[Scalar],
    a: &[Scalar],
    b: &[Scalar],
    border_bg: &[Scalar],
    features: &BackgroundFeatureInputs,
    width: u32,
    height: u32,
    params: &BackgroundParams,
    min_area: usize,
    summarise: &F,
    spread: &G,
    distance: &D,
    score: &Q,
    link: &L,
    ratio: &R,
) -> (r: BackgroundMasks)
    requires
        frame(width, height, l@.len() as int),
        a@.len() == l@.len(),
        b@.len() == l@.len(),
        border_bg@.len() == l@.len(),
        features.lab_grad@.len() == l@.len(),
        all_numbers(l@),
        all_numbers(a@),
        all_numbers(b@),
        forall|v: &Vec<usize>| #[trigger] call_requires(*summarise, (v,)),
        forall|s: &S| #[trigger] call_requires(*spread, (s,)),
        is_distance(*distance),
        forall|s: &S, a: usize, b: usize| a <= b ==> #[trigger] call_requires(*score, (s, a, b)),
        is_link(*link, l@.len() as int),
        is_ratio(*ratio),
    ensures
        ({
            let n = l@.len() as int;
            let none = Seq::new(n as nat, |i: int| false);
            if n == 0 || !params.partition.enabled {
                r.bg_candidate@ == none && r.bg_barrier@ == none && r.bg_mask@ == none
            } else {
                masks_of(
                    l@,
                    a@,
                    b@,
                    border_bg@,
                    *features,
                    width,
                    height,
                    *params,
                    min_area as int,
                    *summarise,
                    *spread,
                    *distance,
                    *score,
                    *link,
                    *ratio,
                    r,
                )
            }
        }),
        r.bg_mask@.len() == l@.len(),
{
    let n = l.len();
    let p = &params.partition;
    if n == 0 || !p.enabled {
        return BackgroundMasks {
            bg_candidate: none_marked(n),
            bg_barrier: none_marked(n),
            bg_mask: none_marked(n),
        };
    }
    let all = list_pixels(n);
    let ghost pixels = all@;
    let lim = CutLimits { max_depth: p.max_depth, variance_threshold: p.variance_threshold };
    let mut clusters: Vec<Cluster<S>> = Vec::new();
    median_cut_partition(l, a, b, all, 0, &lim, summarise, spread, &mut clusters);
    let ghost cut = clusters@;
    proof {
        assert(clusters@.skip(0) =~= clusters@);
        cuts_keep_pixels(l@, a@, b@, pixels, 0, lim, *summarise, *spread, cut);
    }
    merge_small_clusters(&mut clusters, min_area, summarise, distance);
    let ghost merged = clusters@;
    proof {
        if min_area >= 2 {
            merging_keeps_pixels(*summarise, *distance, cut, min_area as int, 0, merged);
        }
    }
    reduce_cluster_count(&mut clusters, p.max_clusters, summarise, distance);
    let ghost max: int = if p.max_clusters >= 1 {
        p.max_clusters as int
    } else {
        1
    };
    proof {
        reducing_keeps_pixels(*summarise, *distance, merged, max, clusters@);
        crate::border::clusters_made_of(clusters@, pixels, n as int);
    }
    let border = border_mask(width, height, p.border_band);
    assert(border@ =~= border_flags(width, height, p.border_band));
    let scores = score_clusters(&clusters, &border, score);
    let cutoff = Cutoff::AtLeast(p.bg_score_threshold);
    let raw = clusters_to_bg_mask(&clusters, &scores, n, &cutoff);
    assert(raw@ =~= cluster_mask(clusters@, scores@, cutoff, n as int));
    let bg_candidate = build_bg_candidate(border_bg, params.flood_barrier.color_threshold);
    let bg_barrier = build_flood_barrier(features, border_bg, &params.flood_barrier);
    let bg_mask = settle_background(
        &raw,
        &bg_candidate,
        &bg_barrier,
        width,
        height,
        p,
        &params.morphology,
        link,
        ratio,
    );
    proof {
        let st = ClusterStages { cut, merged, reduced: clusters@, scores: scores@ };
        assert(clustered(
            st,
            l@,
            a@,
            b@,
            width,
            height,
            *p,
            min_area as int,
            *summarise,
            *spread,
            *distance,
            *score,
        ));
        assert(bg_candidate@ =~= Seq::new(
            n as nat,
            |i: int| params.flood_barrier.color_threshold.lt(border_bg@[i]),
        ));
        assert(bg_barrier@ =~= Seq::new(
            n as nat,
            |i: int| bars(*features, border_bg@, params.flood_barrier, i),
        ));
    }
    BackgroundMasks { bg_candidate, bg_barrier, bg_mask }
}

/// The steps on the way to the background features, one value for each pixel.
#[derive(Clone, Debug)]
pub struct BackgroundDiagnostics {
    pub bg_candidate: Vec<Scalar>,
    pub bg_barrier: Vec<Scalar>,
    pub bg_mask_before_protect: Vec<Scalar>,
    pub foreground_protect: Vec<Scalar>,
    pub bg_mask_after_protect: Vec<Scalar>,
    pub fg_confidence: Vec<Scalar>,
}

/// The features of an image's background, high where a pixel is foreground.
#[derive(Clone, Debug)]
pub struct BackgroundFeatureResult {
    pub bg_mask_morph: Vec<Scalar>,
    pub fg_confidence: Vec<Scalar>,
    pub diagnostics: BackgroundDiagnostics,
}

/// The same value for each of `n` pixels.
pub open spec fn constant(n: int, bits: u64) -> Seq<Scalar> {
    Seq::new(n as nat, |i: int| Scalar { bits })
}

fn fill(n: usize, bits: u64) -> (v: Vec<Scalar>)
    ensures
        v@ == constant(n as int, bits),
{
    let mut v: Vec<Scalar> = Vec::new();
    let mut i: usize = 0;
    while i < n
        invariant
            i <= n,
            v@.len() == i,
            forall|k: int| #![trigger v@[k]] 0 <= k < i ==> v@[k] == (Scalar { bits }),
        decreases n - i,
    {
        v.push(Scalar::new(bits));
        i += 1;
    }
    assert(v@ =~= constant(n as int, bits));
    v
}

/// The marks as values: one or zero.
pub open spec fn mark_values(mask: Seq<bool>) -> Seq<Scalar> {
    Seq::new(mask.len(), |i: int| mark_value(mask[i]))
}

fn values_of(mask: &[bool]) -> (v: Vec<Scalar>)
    ensures
        v@ == mark_values(mask@),
{
    let mut v: Vec<Scalar> = Vec::new();
    let mut i: usize = 0;
    while i < mask.len()
        invariant
            i <= mask@.len(),
            v@.len() == i,
            forall|k: int| #![trigger v@[k]] 0 <= k < i ==> v@[k] == mark_value(mask@[k]),
        decreases mask@.len() - i,
    {
        v.push(
            if mask[i] {
                Scalar::new(ONE_BITS)
            } else {
                Scalar::new(0)
            },
        );
        i += 1;
    }
    assert(v@ =~= mark_values(mask@));
    v
}

fn copy_values(data: &[Scalar]) -> (out: Vec<Scalar>)
    ensures
        out@ == data@,
{
    let mut out: Vec<Scalar> = Vec::new();
    let mut i: usize = 0;
    while i < data.len()
        invariant
            i <= data@.len(),
            out@ == data@.take(i as int),
        decreases data@.len() - i,
    {
        out.push(data[i]);
        i += 1;
        assert(out@ =~= data@.take(i as int));
    }
    assert(out@ =~= data@);
    out
}

/// Nothing is background: both features are one everywhere, and so is the
/// confidence among the steps; the other steps are zero.
pub open spec fn all_foreground(n: int, r: BackgroundFeatureResult) -> bool {
    let d = r.diagnostics;
    &&& r.bg_mask_morph@ == constant(n, ONE_BITS)
    &&& r.fg_confidence@ == constant(n, ONE_BITS)
    &&& d.fg_confidence@ == constant(n, ONE_BITS)
    &&& d.bg_candidate@ == constant(n, 0)
    &&& d.bg_barrier@ == constant(n, 0)
    &&& d.bg_mask_before_protect@ == constant(n, 0)
    &&& d.foreground_protect@ == constant(n, 0)
    &&& d.bg_mask_after_protect@ == constant(n, 0)
}

/// `r` presents masks and the features that they give, step by step.
pub open spec fn presents_masks(
    masks: BackgroundMasks,
    f: BackgroundFeatures,
    protect: Seq<Scalar>,
    r: BackgroundFeatureResult,
) -> bool {
    let d = r.diagnostics;
    &&& r.bg_mask_morph@ == f.mask_feature@
    &&& r.fg_confidence@ == f.foreground@
    &&& d.bg_candidate@ == mark_values(masks.bg_candidate@)
    &&& d.bg_barrier@ == mark_values(masks.bg_barrier@)
    &&& d.bg_mask_before_protect@ == mark_values(masks.bg_mask@)
    &&& d.foreground_protect@ == protect
    &&& d.bg_mask_after_protect@ == f.protected@
    &&& d.fg_confidence@ == f.foreground@
}

/// Small clusters are merged where the least area is two or more; below that all
/// are kept.
pub proof fn single_pixels_may_stay<S, F: Fn(&Vec<usize>) -> S, D: Fn(&S, &S) -> Scalar>(
    summarise: F,
    distance: D,
    cs: Seq<Cluster<S>>,
    min_area: int,
    out: Seq<Cluster<S>>,
    large: int,
    c: int,
)
    requires
        without_small(summarise, distance, cs, min_area, out),
        0 <= large < cs.len(),
        cs[large].indices@.len() >= min_area,
        forall|a: S, b: S| (#[trigger] apart(distance, a, b)).lt(Scalar { bits: MAX_BITS }),
        0 <= c < out.len(),
    ensures
        min_area <= 1 ==> out == cs,
        min_area >= 2 ==> out[c].indices@.len() >= min_area,
{
    if min_area >= 2 {
        small_clusters_vanish(summarise, distance, cs, min_area, 0, out, large, c);
    }
}

/// What is told of the background: the features of the mask as the two maps, and
/// the masks before and after protection among the diagnostics, as zeros and ones
/// where they are marks.
pub proof fn masks_are_told_apart(
    masks: BackgroundMasks,
    f: BackgroundFeatures,
    protect: Seq<Scalar>,
    r: BackgroundFeatureResult,
    i: int,
)
    requires
        presents_masks(masks, f, protect, r),
        0 <= i,
        i < masks.bg_mask@.len(),
        i < masks.bg_candidate@.len(),
        i < masks.bg_barrier@.len(),
    ensures
        r.bg_mask_morph@ == f.mask_feature@,
        r.fg_confidence@ == f.foreground@,
        r.diagnostics.fg_confidence@ == f.foreground@,
        r.diagnostics.bg_mask_after_protect@ == f.protected@,
        r.diagnostics.foreground_protect@ == protect,
        r.diagnostics.bg_mask_before_protect@[i].bits == 0x3FF0_0000_0000_0000 <==> masks.bg_mask@[i],
        r.diagnostics.bg_candidate@[i].bits == 0x3FF0_0000_0000_0000 <==> masks.bg_candidate@[i],
        r.diagnostics.bg_barrier@[i].bits == 0x3FF0_0000_0000_0000 <==> masks.bg_barrier@[i],
{
}

/// The features of an image's background.
///
/// `border_bg` is how much each pixel looks like the border, `protect` how much it
/// looks like foreground; `min_area` is the least size of a colour cluster in
/// pixels. Where the division into clusters is disabled everything is foreground.
/// Else the masks are made, the foreground is protected in them where the barrier
/// is enabled, and features are made of what is left.
pub fn compute_background_features<
    S,
    F: Fn(&Vec<usize>) -> S,
    G: Fn(&S) -> Spread,
    D: Fn(&S, &S) -> Scalar,
    Q: Fn(&S, usize, usize) -> Scalar,
    L: Fn(usize, usize) -> Scalar,
    R: Fn(usize, usize) -> Scalar,
    H: Fn(Scalar, Scalar) -> Scalar,
    V: Fn(Scalar) -> u8,
    A: Fn(&Vec<Scalar>) -> Scalar,
    B: Fn(PartitionWeight, Scalar, Scalar) -> Scalar,
    O: Fn(&Vec<Scalar>) -> Vec<Scalar>,
    M: Fn(Scalar, Scalar) -> Scalar,
>(
    l: &[Scalar],
    a: &[Scalar],
    b: &[Scalar],
    border_bg: &[Scalar],
    protect: &[Scalar],
    features: &BackgroundFeatureInputs,
    width: u32,
    height: u32,
    params: &BackgroundParams,
    min_area: usize,
    summarise: &F,
    spread: &G,
    distance: &D,
    score: &Q,
    link: &L,
    ratio: &R,
    shade: &H,
    level: &V,
    average: &A,
    blend: &B,
    foreground: &O,
    mix: &M,
) -> (r: BackgroundFeatureResult)
    requires
        frame(width, height, l@.len() as int),
        a@.len() == l@.len(),
        b@.len() == l@.len(),
        params.partition.enabled ==> border_bg@.len() == l@.len(),
        params.partition.enabled ==> features.lab_grad@.len() == l@.len(),
        all_numbers(l@),
        all_numbers(a@),
        all_numbers(b@),
        forall|v: &Vec<usize>| #[trigger] call_requires(*summarise, (v,)),
        forall|s: &S| #[trigger] call_requires(*spread, (s,)),
        is_distance(*distance),
        forall|s: &S, a: usize, b: usize| a <= b ==> #[trigger] call_requires(*score, (s, a, b)),
        is_link(*link, l@.len() as int),
        is_ratio(*ratio),
        forall|m: Scalar, p: Scalar| #[trigger] call_requires(*shade, (m, p)),
        forall|v: Scalar| #[trigger] call_requires(*level, (v,)),
        forall|v: &Vec<Scalar>| #[trigger] call_requires(*average, (v,)),
        forall|w: PartitionWeight, a: Scalar, b: Scalar| #[trigger] call_requires(*blend, (w, a, b)),
        forall|v: &Vec<Scalar>| #[trigger] call_requires(*foreground, (v,)),
        forall|a: Scalar, b: Scalar| #[trigger] call_requires(*mix, (a, b)),
        gives_numbers(*shade, *foreground, *mix),
    ensures
        l@.len() == 0 || !params.partition.enabled ==> all_foreground(l@.len() as int, r),
        l@.len() > 0 && params.partition.enabled ==> exists|
            masks: BackgroundMasks,
            f: BackgroundFeatures,
            mean: Scalar,
            levels: Seq<u8>,
            soft: Vec<Scalar>,
            raw: Vec<Scalar>,
        |
            {
                &&& #[trigger] presents_masks(masks, f, protect@, r)
                &&& masks_of(
                    l@,
                    a@,
                    b@,
                    border_bg@,
                    *features,
                    width,
                    height,
                    *params,
                    min_area as int,
                    *summarise,
                    *spread,
                    *distance,
                    *score,
                    *link,
                    *ratio,
                    masks,
                )
                &&& #[trigger] features_of_mask(
                    *shade,
                    *level,
                    *average,
                    *blend,
                    *foreground,
                    *mix,
                    masks.bg_mask@,
                    protect@,
                    params.flood_barrier.enabled,
                    border_bg@,
                    mean,
                    levels,
                    soft,
                    raw,
                    f,
                )
            },
        r.bg_mask_morph@.len() == l@.len(),
        r.fg_confidence@.len() == l@.len(),
        all_unit(r.bg_mask_morph@),
        all_unit(r.fg_confidence@),
        r.diagnostics.fg_confidence@ == r.fg_confidence@,
        r.diagnostics.bg_candidate@.len() == l@.len(),
        r.diagnostics.bg_barrier@.len() == l@.len(),
        r.diagnostics.bg_mask_before_protect@.len() == l@.len(),
        r.diagnostics.bg_mask_after_protect@.len() == l@.len(),
        forall|i: int|
            #![trigger r.diagnostics.bg_candidate@[i]]
            0 <= i < l@.len() ==> r.diagnostics.bg_candidate@[i].bits == 0
                || r.diagnostics.bg_candidate@[i].bits == ONE_BITS,
        forall|i: int|
            #![trigger r.diagnostics.bg_barrier@[i]]
            0 <= i < l@.len() ==> r.diagnostics.bg_barrier@[i].bits == 0
                || r.diagnostics.bg_barrier@[i].bits == ONE_BITS,
        all_unit(r.diagnostics.bg_mask_before_protect@),
        all_unit(r.diagnostics.bg_mask_after_protect@),
        forall|i: int|
            #![trigger r.diagnostics.bg_mask_after_protect@[i]]
            0 <= i < l@.len() ==> r.diagnostics.bg_mask_after_protect@[i].le(
                r.diagnostics.bg_mask_before_protect@[i],
            ),
{
    let n = l.len();
    if n == 0 || !params.partition.enabled {
        return BackgroundFeatureResult {
            bg_mask_morph: fill(n, ONE_BITS),
            fg_confidence: fill(n, ONE_BITS),
            diagnostics: BackgroundDiagnostics {
                bg_candidate: fill(n, 0),
                bg_barrier: fill(n, 0),
                bg_mask_before_protect: fill(n, 0),
                foreground_protect: fill(n, 0),
                bg_mask_after_protect: fill(n, 0),
                fg_confidence: fill(n, ONE_BITS),
            },
        };
    }
    let masks = background_masks(
        l,
        a,
        b,
        border_bg,
        features,
        width,
        height,
        params,
        min_area,
        summarise,
        spread,
        distance,
        score,
        link,
        ratio,
    );
    let f = background_features(
        masks.bg_mask.as_slice(),
        protect,
        params.flood_barrier.enabled,
        border_bg,
        shade,
        level,
        average,
        blend,
        foreground,
        mix,
    );
    let ghost given = f;
    let steps = BackgroundDiagnostics {
        bg_candidate: values_of(masks.bg_candidate.as_slice()),
        bg_barrier: values_of(masks.bg_barrier.as_slice()),
        bg_mask_before_protect: values_of(masks.bg_mask.as_slice()),
        foreground_protect: copy_values(protect),
        fg_confidence: copy_values(f.foreground.as_slice()),
        bg_mask_after_protect: f.protected,
    };
    let r = BackgroundFeatureResult {
        bg_mask_morph: f.mask_feature,
        fg_confidence: f.foreground,
        diagnostics: steps,
    };
    proof {
        let (mean, levels, soft, raw) = choose|
            mean: Scalar,
            levels: Seq<u8>,
            soft: Vec<Scalar>,
            raw: Vec<Scalar>,
        | #[trigger]
            features_of_mask(
                *shade,
                *level,
                *average,
                *blend,
                *foreground,
                *mix,
                masks.bg_mask@,
                protect@,
                params.flood_barrier.enabled,
                border_bg@,
                mean,
                levels,
                soft,
                raw,
                given,
            );
        features_are_units(
            *shade,
            *level,
            *average,
            *blend,
            *foreground,
            *mix,
            masks.bg_mask@,
            protect@,
            params.flood_barrier.enabled,
            border_bg@,
            mean,
            levels,
            soft,
            raw,
            given,
        );
        assert(presents_masks(masks, given, protect@, r));
    }
    r
}

/// The clusters that are scored are no more than wanted and, where any cluster is
/// large enough to begin with, none of them is below the least area.
pub proof fn scored_clusters_are_large_and_few<
    S,
    F: Fn(&Vec<usize>) -> S,
    G: Fn(&S) -> Spread,
    D: Fn(&S, &S) -> Scalar,
    Q: Fn(&S, usize, usize) -> Scalar,
>(
    st: ClusterStages<S>,
    l: Seq<Scalar>,
    a: Seq<Scalar>,
    b: Seq<Scalar>,
    width: u32,
    height: u32,
    p: ColorPartitionParams,
    min_area: int,
    summarise: F,
    spread: G,
    distance: D,
    score: Q,
    large: int,
    c: int,
)
    requires
        clustered(
            st,
            l,
            a,
            b,
            width,
            height,
            p,
            min_area,
            summarise,
            spread,
            distance,
            score,
        ),
        min_area >= 2,
        forall|x: S, y: S| (#[trigger] apart(distance, x, y)).lt(Scalar { bits: MAX_BITS }),
        0 <= large < st.cut.len(),
        st.cut[large].indices@.len() >= min_area,
        0 <= c < st.reduced.len(),
    ensures
        st.reduced[c].indices@.len() >= min_area,
        st.reduced.len() <= p.max_clusters || st.reduced.len() == 1,
        st.scores.len() == st.reduced.len(),
{
    let max = if p.max_clusters >= 1 {
        p.max_clusters as int
    } else {
        1
    };
    assert forall|m: int|
        #![trigger st.merged[m]]
        0 <= m < st.merged.len() implies st.merged[m].indices@.len() >= min_area by {
        small_clusters_vanish(summarise, distance, st.cut, min_area, 0, st.merged, large, m);
    }
    reducing_keeps_large(summarise, distance, st.merged, max, st.reduced, min_area, c);
    reducing_reaches_count(summarise, distance, st.merged, max, st.reduced);
}

} // verus!
