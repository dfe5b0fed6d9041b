//! The impression colour: clusters of the weighted pixels, and the best of them.

use vstd::prelude::*;
use crate::clusters::is_distance;
use crate::kmeans::{
    is_chooser, is_run, is_seeding, is_update, iterate, runs_repeat, seed_centroids,
    seeding_repeats, Round,
};
use crate::region::frame;
use crate::sampling::{positives, sample_all, sample_grid, sampled};
use crate::scalar::Scalar;
use crate::selection::{
    all_scored_as, samples_of, scored_as, select_best_cluster, winner_of,
};

verus! {

/// The pixels that a colour is made of: on a grid where the method is `stride`,
/// else all; of these, the ones with a positive weight.
pub open spec fn chosen_pixels(weights: Seq<Scalar>, w: int, method: Seq<char>, stride: int) -> Seq<
    usize,
> {
    if method == "stride"@ {
        sampled(
            weights,
            w,
            if stride >= 1 {
                stride
            } else {
                1
            },
            weights.len() as int,
        )
    } else {
        positives(weights, weights.len() as int)
    }
}

/// Chooses the pixels that a colour is made of.
pub fn choose_pixels(weights: &[Scalar], w: u32, h: u32, method: &str, stride: usize) -> (out: Vec<
    usize,
>)
    requires
        frame(w, h, weights@.len() as int),
    ensures
        out@ == chosen_pixels(weights@, w as int, method@, stride as int),
{
    if String::from_str(method) == String::from_str("stride") {
        sample_grid(weights, w, h, stride)
    } else {
        sample_all(weights)
    }
}

/// A colour, and where it comes from.
#[derive(Clone, Copy, Debug)]
pub enum ColorChoice<P> {
    /// There are no pixels.
    Nothing,
    /// There are no more pixels than clusters: their weighted mean, with the sum
    /// of their weights.
    Mean(P, Scalar),
    /// The centre of the best cluster, with its number and score.
    Center(P, usize, Scalar),
}

/// The number of clusters, at least one.
pub open spec fn cluster_count(k: int) -> int {
    if k >= 1 {
        k
    } else {
        1
    }
}

/// The colour is the centre of the best cluster: seeds are drawn, the clusters
/// settle in up to `max_iter` rounds, and the highest score wins, the last one
/// among equals.
pub open spec fn best_center<
    P,
    D: Fn(&P, &P) -> Scalar,
    C: Fn(&Vec<Scalar>, u64) -> Option<usize>,
    U: Fn(&Vec<usize>, &Vec<P>) -> Vec<P>,
    Q: Fn(&P, &Vec<usize>) -> Scalar,
>(
    distance: D,
    choose_next: C,
    update: U,
    score: Q,
    pts: Seq<P>,
    indices: Seq<usize>,
    k: int,
    max_iter: int,
    seed: u64,
    start: Seq<P>,
    stop: int,
    rounds: Seq<Round<P>>,
    scores: Seq<Scalar>,
    color: P,
    best: int,
    top: Scalar,
) -> bool {
    let assign = rounds.last().assign;
    let centers = rounds.last().centroids;
    &&& is_seeding(distance, choose_next, pts, seed, start, cluster_count(k), stop)
    &&& is_run(distance, update, pts, start, max_iter, rounds)
    &&& all_scored_as(score, assign, indices, centers, scores)
    &&& best == winner_of(scores, centers.len() as int)
    &&& color == centers[best]
    &&& top == scores[best]
}

/// The colour is the centre of the best cluster, by some seeding and rounds.
pub open spec fn is_best_center<
    P,
    D: Fn(&P, &P) -> Scalar,
    C: Fn(&Vec<Scalar>, u64) -> Option<usize>,
    U: Fn(&Vec<usize>, &Vec<P>) -> Vec<P>,
    Q: Fn(&P, &Vec<usize>) -> Scalar,
>(
    distance: D,
    choose_next: C,
    update: U,
    score: Q,
    pts: Seq<P>,
    indices: Seq<usize>,
    k: int,
    max_iter: int,
    seed: u64,
    color: P,
    best: int,
    top: Scalar,
) -> bool {
    exists|start: Seq<P>, stop: int, rounds: Seq<Round<P>>, scores: Seq<Scalar>| #[trigger]
        best_center(
            distance,
            choose_next,
            update,
            score,
            pts,
            indices,
            k,
            max_iter,
            seed,
            start,
            stop,
            rounds,
            scores,
            color,
            best,
            top,
        )
}

/// `mean` answers for every list of pixels, always the same.
pub open spec fn is_mean<P, A: Fn(&Vec<usize>) -> (P, Scalar)>(mean: A) -> bool {
    &&& forall|v: &Vec<usize>| #[trigger] call_requires(mean, (v,))
    &&& forall|v: &Vec<usize>, u: &Vec<usize>, r: (P, Scalar), s: (P, Scalar)|
        #![trigger call_ensures(mean, (v,), r), call_ensures(mean, (u,), s)]
        call_ensures(mean, (v,), r) && call_ensures(mean, (u,), s) && v@ == u@ ==> r == s
}

/// `score` answers for every cluster, always the same.
pub open spec fn is_score<P, Q: Fn(&P, &Vec<usize>) -> Scalar>(score: Q) -> bool {
    &&& forall|p: &P, g: &Vec<usize>| #[trigger] call_requires(score, (p, g))
    &&& forall|p: &P, g: &Vec<usize>, h: &Vec<usize>, r: Scalar, s: Scalar|
        #![trigger call_ensures(score, (p, g), r), call_ensures(score, (p, h), s)]
        call_ensures(score, (p, g), r) && call_ensures(score, (p, h), s) && g@ == h@ ==> r == s
}

/// The same pixels with the same seed give the same colour, from the same cluster
/// with the same score.
pub proof fn colors_repeat<
    P,
    D: Fn(&P, &P) -> Scalar,
    C: Fn(&Vec<Scalar>, u64) -> Option<usize>,
    U: Fn(&Vec<usize>, &Vec<P>) -> Vec<P>,
    Q: Fn(&P, &Vec<usize>) -> Scalar,
>(
    distance: D,
    choose_next: C,
    update: U,
    score: Q,
    pts: Seq<P>,
    indices: Seq<usize>,
    k: int,
    max_iter: int,
    seed: u64,
    color: P,
    best: int,
    top: Scalar,
    color2: P,
    best2: int,
    top2: Scalar,
)
    requires
        is_chooser(choose_next),
        is_update(update),
        is_score(score),
        is_best_center(
            distance,
            choose_next,
            update,
            score,
            pts,
            indices,
            k,
            max_iter,
            seed,
            color,
            best,
            top,
        ),
        is_best_center(
            distance,
            choose_next,
            update,
            score,
            pts,
            indices,
            k,
            max_iter,
            seed,
            color2,
            best2,
            top2,
        ),
    ensures
        color == color2,
        best == best2,
        top == top2,
{
    let (start, stop, rounds, scores) = choose|
        start: Seq<P>,
        stop: int,
        rounds: Seq<Round<P>>,
        scores: Seq<Scalar>,
    | #[trigger]
        best_center(
            distance,
            choose_next,
            update,
            score,
            pts,
            indices,
            k,
            max_iter,
            seed,
            start,
            stop,
            rounds,
            scores,
            color,
            best,
            top,
        );
    let (start2, stop2, rounds2, scores2) = choose|
        start: Seq<P>,
        stop: int,
        rounds: Seq<Round<P>>,
        scores: Seq<Scalar>,
    | #[trigger]
        best_center(
            distance,
            choose_next,
            update,
            score,
            pts,
            indices,
            k,
            max_iter,
            seed,
            start,
            stop,
            rounds,
            scores,
            color2,
            best2,
            top2,
        );
    seeding_repeats(
        distance,
        choose_next,
        pts,
        seed,
        cluster_count(k),
        start,
        stop,
        start2,
        stop2,
    );
    runs_repeat(distance, update, pts, start, max_iter, rounds, rounds2);
    let assign = rounds.last().assign;
    let centers = rounds.last().centroids;
    assert(scores =~= scores2) by {
        assert forall|c: int| 0 <= c < scores.len() implies scores[c] == scores2[c] by {
            assert(scored_as(score, assign, indices, centers[c], c, scores[c]));
            assert(scored_as(score, assign, indices, centers[c], c, scores2[c]));
            let g = choose|g: Vec<usize>|
                #![trigger call_ensures(score, (&centers[c], &g), scores[c])]
                g@ == samples_of(assign, indices, c, assign.len() as int) && call_ensures(
                    score,
                    (&centers[c], &g),
                    scores[c],
                );
            let h = choose|g: Vec<usize>|
                #![trigger call_ensures(score, (&centers[c], &g), scores2[c])]
                g@ == samples_of(assign, indices, c, assign.len() as int) && call_ensures(
                    score,
                    (&centers[c], &g),
                    scores2[c],
                );
            assert(call_ensures(score, (&centers[c], &g), scores[c]) && call_ensures(
                score,
                (&centers[c], &h),
                scores2[c],
            ));
        }
    }
}

/// By the method `stride` the pixels of positive weight on the grid are chosen, by
/// any other all pixels of positive weight.
pub proof fn chosen_pixels_have_weight(
    weights: Seq<Scalar>,
    w: int,
    method: Seq<char>,
    stride: int,
    i: int,
)
    requires
        0 <= i < weights.len() <= usize::MAX,
    ensures
        method != "stride"@ ==> (chosen_pixels(weights, w, method, stride).contains(i as usize)
            <==> (Scalar { bits: 0 }).lt(weights[i])),
        method == "stride"@ && stride >= 1 ==> (chosen_pixels(weights, w, method, stride).contains(
            i as usize,
        ) <==> (i % w) % stride == 0 && (i / w) % stride == 0 && (Scalar { bits: 0 }).lt(
            weights[i],
        )),
        method == "stride"@ && stride < 1 ==> (chosen_pixels(weights, w, method, stride).contains(
            i as usize,
        ) <==> (i % w) % 1 == 0 && (i / w) % 1 == 0 && (Scalar { bits: 0 }).lt(weights[i])),
{
    let n = weights.len() as int;
    crate::sampling::positives_are_positive(weights, n, i);
    crate::sampling::sampled_lies_on_grid(
        weights,
        w,
        if stride >= 1 {
            stride
        } else {
            1
        },
        n,
        i,
    );
}

/// Where the scores are numbers, the colour is the centre of a cluster than which
/// none scores higher.
pub proof fn best_center_scores_most<
    P,
    D: Fn(&P, &P) -> Scalar,
    C: Fn(&Vec<Scalar>, u64) -> Option<usize>,
    U: Fn(&Vec<usize>, &Vec<P>) -> Vec<P>,
    Q: Fn(&P, &Vec<usize>) -> Scalar,
>(
    distance: D,
    choose_next: C,
    update: U,
    score: Q,
    pts: Seq<P>,
    indices: Seq<usize>,
    k: int,
    max_iter: int,
    seed: u64,
    start: Seq<P>,
    stop: int,
    rounds: Seq<Round<P>>,
    scores: Seq<Scalar>,
    color: P,
    best: int,
    top: Scalar,
    c: int,
)
    requires
        best_center(
            distance,
            choose_next,
            update,
            score,
            pts,
            indices,
            k,
            max_iter,
            seed,
            start,
            stop,
            rounds,
            scores,
            color,
            best,
            top,
        ),
        forall|m: int| #![trigger scores[m]] 0 <= m < scores.len() ==> !scores[m].is_nan(),
        0 <= c < scores.len(),
    ensures
        0 <= best < rounds.last().centroids.len(),
        color == rounds.last().centroids[best],
        scores[c].le(top),
        scored_as(score, rounds.last().assign, indices, color, best, top),
{
    crate::selection::winner_is_greatest(scores, scores.len() as int, c);
    assert(scored_as(
        score,
        rounds.last().assign,
        indices,
        rounds.last().centroids[best],
        best,
        scores[best],
    ));
}

/// The colour of chosen pixels. `pts[i]` is the colour of pixel `indices[i]`;
/// `distance` measures two colours, `choose_next` picks the next seed by the
/// distances to the nearest, `update` moves the centres, `mean` gives the weighted
/// mean of all pixels, and `score` rates a cluster by its centre and pixels.
pub fn color_of_pixels<
    P: Copy,
    D: Fn(&P, &P) -> Scalar,
    C: Fn(&Vec<Scalar>, u64) -> Option<usize>,
    U: Fn(&Vec<usize>, &Vec<P>) -> Vec<P>,
    A: Fn(&Vec<usize>) -> (P, Scalar),
    Q: Fn(&P, &Vec<usize>) -> Scalar,
>(
    pts: &Vec<P>,
    indices: &Vec<usize>,
    k: usize,
    max_iter: usize,
    seed: u64,
    distance: &D,
    choose_next: &C,
    update: &U,
    mean: &A,
    score: &Q,
) -> (r: ColorChoice<P>)
    requires
        indices@.len() == pts@.len(),
        is_distance(*distance),
        is_chooser(*choose_next),
        is_update(*update),
        is_mean(*mean),
        is_score(*score),
    ensures
        pts@.len() == 0 <==> r is Nothing,
        0 < pts@.len() <= k <==> r is Mean,
        r is Mean ==> call_ensures(*mean, (indices,), (r->Mean_0, r->Mean_1)),
        r is Center ==> is_best_center(
            *distance,
            *choose_next,
            *update,
            *score,
            pts@,
            indices@,
            k as int,
            max_iter as int,
            seed,
            r->Center_0,
            r->Center_1 as int,
            r->Center_2,
        ),
{
    let n = pts.len();
    if n == 0 {
        return ColorChoice::Nothing;
    }
    if n <= k {
        assert(call_requires(*mean, (indices,)));
        let m = mean(indices);
        assert(call_ensures(*mean, (indices,), (m.0, m.1)));
        return ColorChoice::Mean(m.0, m.1);
    }
    let kk: usize = if k >= 1 {
        k
    } else {
        1
    };
    let start = seed_centroids(pts.as_slice(), kk, seed, distance, choose_next);
    let ghost first = start@;
    let (assign, centers) = iterate(pts.as_slice(), start, max_iter, distance, update);
    match select_best_cluster(assign.as_slice(), indices.as_slice(), centers.as_slice(), score) {
        Some((best, scores)) => {
            let color = centers[best];
            let top = scores[best];
            proof {
                let stop = choose|stop: int| #[trigger]
                    is_seeding(*distance, *choose_next, pts@, seed, first, kk as int, stop);
                let rounds = choose|rounds: Seq<Round<P>>|
                    {
                        &&& #[trigger] is_run(
                            *distance,
                            *update,
                            pts@,
                            first,
                            max_iter as int,
                            rounds,
                        )
                        &&& assign@ == rounds.last().assign
                        &&& centers@ == rounds.last().centroids
                    };
                assert(best_center(
                    *distance,
                    *choose_next,
                    *update,
                    *score,
                    pts@,
                    indices@,
                    k as int,
                    max_iter as int,
                    seed,
                    first,
                    stop,
                    rounds,
                    scores@,
                    color,
                    best as int,
                    top,
                ));
            }
            ColorChoice::Center(color, best, top)
        },
        None => ColorChoice::Nothing,
    }
}

/// The colours of chosen pixels.
pub open spec fn picked_colors<P>(rgb: Seq<P>, indices: Seq<usize>) -> Seq<P> {
    Seq::new(indices.len(), |i: int| rgb[indices[i] as int])
}

fn pick_colors<P: Copy>(rgb: &[P], indices: &Vec<usize>) -> (pts: Vec<P>)
    requires
        forall|i: int| #![trigger indices@[i]] 0 <= i < indices@.len() ==> indices@[i] < rgb@.len(),
    ensures
        pts@ == picked_colors(rgb@, indices@),
{
    let mut pts: Vec<P> = Vec::new();
    let mut i: usize = 0;
    while i < indices.len()
        invariant
            i <= indices@.len(),
            pts@.len() == i,
            forall|q: int|
                #![trigger indices@[q]]
                0 <= q < indices@.len() ==> indices@[q] < rgb@.len(),
            forall|q: int| #![trigger pts@[q]] 0 <= q < i ==> pts@[q] == rgb@[indices@[q] as int],
        decreases indices@.len() - i,
    {
        pts.push(rgb[indices[i]]);
        i += 1;
    }
    assert(pts@ =~= picked_colors(rgb@, indices@));
    pts
}

/// `r` is the colour of the chosen pixels of an image, with its weight or score:
/// `blank` and zero without pixels, the weighted mean with its weight where there are
/// no more pixels than clusters, else the centre of the best cluster with its score.
pub open spec fn is_weighted_color<
    P,
    D: Fn(&P, &P) -> Scalar,
    C: Fn(&Vec<Scalar>, u64) -> Option<usize>,
    U: Fn(&Vec<usize>, &Vec<P>) -> Vec<P>,
    A: Fn(&Vec<usize>) -> (P, Scalar),
    Q: Fn(&P, &Vec<usize>) -> Scalar,
>(
    rgb: Seq<P>,
    indices: Vec<usize>,
    blank: P,
    k: int,
    max_iter: int,
    seed: u64,
    distance: D,
    choose_next: C,
    update: U,
    mean: A,
    score: Q,
    r: (P, Scalar),
) -> bool {
    &&& indices@.len() == 0 ==> r == (blank, Scalar { bits: 0 })
    &&& 0 < indices@.len() <= k ==> call_ensures(mean, (&indices,), r)
    &&& indices@.len() > 0 && indices@.len() > k ==> exists|best: int| #[trigger]
        is_best_center(
            distance,
            choose_next,
            update,
            score,
            picked_colors(rgb, indices@),
            indices@,
            k,
            max_iter,
            seed,
            r.0,
            best,
            r.1,
        )
}

/// The same pixels with the same seed give the same colour.
pub proof fn weighted_colors_repeat<
    P,
    D: Fn(&P, &P) -> Scalar,
    C: Fn(&Vec<Scalar>, u64) -> Option<usize>,
    U: Fn(&Vec<usize>, &Vec<P>) -> Vec<P>,
    A: Fn(&Vec<usize>) -> (P, Scalar),
    Q: Fn(&P, &Vec<usize>) -> Scalar,
>(
    rgb: Seq<P>,
    indices: Vec<usize>,
    blank: P,
    k: int,
    max_iter: int,
    seed: u64,
    distance: D,
    choose_next: C,
    update: U,
    mean: A,
    score: Q,
    r: (P, Scalar),
    s: (P, Scalar),
)
    requires
        is_chooser(choose_next),
        is_update(update),
        is_mean(mean),
        is_score(score),
        is_weighted_color(
            rgb,
            indices,
            blank,
            k,
            max_iter,
            seed,
            distance,
            choose_next,
            update,
            mean,
            score,
            r,
        ),
        is_weighted_color(
            rgb,
            indices,
            blank,
            k,
            max_iter,
            seed,
            distance,
            choose_next,
            update,
            mean,
            score,
            s,
        ),
    ensures
        r == s,
{
    let pts = picked_colors(rgb, indices@);
    if indices@.len() > 0 {
        if indices@.len() <= k {
            assert(call_ensures(mean, (&indices,), r) && call_ensures(mean, (&indices,), s));
        } else {
            let a = choose|best: int| #[trigger]
                is_best_center(
                    distance,
                    choose_next,
                    update,
                    score,
                    pts,
                    indices@,
                    k,
                    max_iter,
                    seed,
                    r.0,
                    best,
                    r.1,
                );
            let b = choose|best: int| #[trigger]
                is_best_center(
                    distance,
                    choose_next,
                    update,
                    score,
                    pts,
                    indices@,
                    k,
                    max_iter,
                    seed,
                    s.0,
                    best,
                    s.1,
                );
            colors_repeat(
                distance,
                choose_next,
                update,
                score,
                pts,
                indices@,
                k,
                max_iter,
                seed,
                r.0,
                a,
                r.1,
                s.0,
                b,
                s.1,
            );
        }
    }
}

/// No pixels give the blank colour; up to as many pixels as clusters give their
/// mean; more give the centre of a cluster.
pub proof fn few_pixels_are_averaged<
    P,
    D: Fn(&P, &P) -> Scalar,
    C: Fn(&Vec<Scalar>, u64) -> Option<usize>,
    U: Fn(&Vec<usize>, &Vec<P>) -> Vec<P>,
    A: Fn(&Vec<usize>) -> (P, Scalar),
    Q: Fn(&P, &Vec<usize>) -> Scalar,
>(
    rgb: Seq<P>,
    indices: Vec<usize>,
    blank: P,
    k: int,
    max_iter: int,
    seed: u64,
    distance: D,
    choose_next: C,
    update: U,
    mean: A,
    score: Q,
    r: (P, Scalar),
)
    requires
        is_weighted_color(
            rgb,
            indices,
            blank,
            k,
            max_iter,
            seed,
            distance,
            choose_next,
            update,
            mean,
            score,
            r,
        ),
    ensures
        indices@.len() == 0 ==> r.0 == blank && r.1.bits == 0,
        1 <= indices@.len() <= k ==> call_ensures(mean, (&indices,), r),
        indices@.len() >= 1 && indices@.len() >= k + 1 ==> exists|best: int| #[trigger]
            is_best_center(
                distance,
                choose_next,
                update,
                score,
                picked_colors(rgb, indices@),
                indices@,
                k,
                max_iter,
                seed,
                r.0,
                best,
                r.1,
            ),
        picked_colors(rgb, indices@).len() == indices@.len(),
        forall|i: int|
            0 <= i < indices@.len() ==> #[trigger] picked_colors(rgb, indices@)[i]
                == rgb[indices@[i] as int],
{
}

/// The colour of the chosen pixels of an image, with its weight or score: `blank`
/// and zero without pixels, the weighted mean with its weight where there are no
/// more pixels than clusters, else the centre of the best cluster with its score.
pub fn kmeans_weighted_color<
    P: Copy,
    D: Fn(&P, &P) -> Scalar,
    C: Fn(&Vec<Scalar>, u64) -> Option<usize>,
    U: Fn(&Vec<usize>, &Vec<P>) -> Vec<P>,
    A: Fn(&Vec<usize>) -> (P, Scalar),
    Q: Fn(&P, &Vec<usize>) -> Scalar,
>(
    rgb: &[P],
    indices: &Vec<usize>,
    blank: P,
    k: usize,
    max_iter: usize,
    seed: u64,
    distance: &D,
    choose_next: &C,
    update: &U,
    mean: &A,
    score: &Q,
) -> (r: (P, Scalar))
    requires
        forall|i: int| #![trigger indices@[i]] 0 <= i < indices@.len() ==> indices@[i] < rgb@.len(),
        is_distance(*distance),
        is_chooser(*choose_next),
        is_update(*update),
        is_mean(*mean),
        is_score(*score),
    ensures
        is_weighted_color(
            rgb@,
            *indices,
            blank,
            k as int,
            max_iter as int,
            seed,
            *distance,
            *choose_next,
            *update,
            *mean,
            *score,
            r,
        ),
{
    let pts = pick_colors(rgb, indices);
    match color_of_pixels(
        &pts,
        indices,
        k,
        max_iter,
        seed,
        distance,
        choose_next,
        update,
        mean,
        score,
    ) {
        ColorChoice::Nothing => (blank, Scalar::new(0)),
        ColorChoice::Mean(c, weight) => (c, weight),
        ColorChoice::Center(c, best, top) => {
            let r = (c, top);
            assert(is_best_center(
                *distance,
                *choose_next,
                *update,
                *score,
                picked_colors(rgb@, indices@),
                indices@,
                k as int,
                max_iter as int,
                seed,
                r.0,
                best as int,
                r.1,
            ));
            r
        },
    }
}

/// The impression colour of the chosen pixels of an image: `blank` without pixels,
/// their weighted mean where there are no more pixels than clusters, else the
/// centre of the best cluster.
pub fn kmeans_impression_color<
    P: Copy,
    D: Fn(&P, &P) -> Scalar,
    C: Fn(&Vec<Scalar>, u64) -> Option<usize>,
    U: Fn(&Vec<usize>, &Vec<P>) -> Vec<P>,
    A: Fn(&Vec<usize>) -> (P, Scalar),
    Q: Fn(&P, &Vec<usize>) -> Scalar,
>(
    rgb: &[P],
    indices: &Vec<usize>,
    blank: P,
    k: usize,
    max_iter: usize,
    seed: u64,
    distance: &D,
    choose_next: &C,
    update: &U,
    mean: &A,
    score: &Q,
) -> (c: P)
    requires
        forall|i: int| #![trigger indices@[i]] 0 <= i < indices@.len() ==> indices@[i] < rgb@.len(),
        is_distance(*distance),
        is_chooser(*choose_next),
        is_update(*update),
        is_mean(*mean),
        is_score(*score),
    ensures
        exists|weight: Scalar| #[trigger]
            is_weighted_color(
                rgb@,
                *indices,
                blank,
                k as int,
                max_iter as int,
                seed,
                *distance,
                *choose_next,
                *update,
                *mean,
                *score,
                (c, weight),
            ),
{
    let r = kmeans_weighted_color(
        rgb,
        indices,
        blank,
        k,
        max_iter,
        seed,
        distance,
        choose_next,
        update,
        mean,
        score,
    );
    assert(r == (r.0, r.1));
    r.0
}

/// As many clusters are made as are asked for, and at least one.
pub proof fn some_cluster_is_made(k: int)
    ensures
        cluster_count(k) >= 1,
        k >= 1 ==> cluster_count(k) == k,
        k < 1 ==> cluster_count(k) == 1,
{
}

} // verus!
