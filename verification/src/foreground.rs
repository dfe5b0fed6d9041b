//! Palettes of the foreground: clusters of weighted pixels, or halves of halves.

use vstd::prelude::*;
use crate::algorithms::{method_named, palette_plan, PaletteMethod, LEAST_WEIGHT_BITS};
use crate::clusters::{apart, is_distance};
use crate::kmeans::{
    chosen, is_chooser, is_run, is_update, iterate, least_distance, least_distance_of_prefix,
    least_distances, Round,
};
use crate::median_cut::{contents, halved, is_width, median_cut_recursive, Axes};
use crate::sampling::{count_up, counted, draw_numbers, generated};
use crate::scalar::{Scalar, MAX_BITS};
use crate::selection::{group_samples, samples_of};
use crate::thumbs::PaletteEntry;

verus! {

/// Centroid `j` is the point chosen for it with draw `j`.
pub open spec fn drawn_at<
    P,
    D: Fn(&P, &P) -> Scalar,
    C: Fn(&Vec<Scalar>, u64) -> Option<usize>,
>(
    distance: D,
    choose_next: C,
    pts: Seq<P>,
    draws: Seq<u64>,
    centroids: Seq<P>,
    j: int,
) -> bool {
    exists|i: usize|
        {
            &&& i < pts.len()
            &&& #[trigger] chosen(
                choose_next,
                least_distances(distance, pts, centroids.take(j), j),
                draws[j],
                Some(i),
            )
            &&& centroids[j] == pts[i as int]
        }
}

/// The centroids are points, up to `k` of them: the first one at `first`, or the
/// first point where there is none at `first`, then one chosen by its distance
/// from the centroids before it, until none can be chosen.
pub open spec fn is_drawing<
    P,
    D: Fn(&P, &P) -> Scalar,
    C: Fn(&Vec<Scalar>, u64) -> Option<usize>,
>(
    distance: D,
    choose_next: C,
    pts: Seq<P>,
    first: int,
    draws: Seq<u64>,
    k: int,
    centroids: Seq<P>,
) -> bool {
    let stop = centroids.len() as int;
    &&& 1 <= stop <= k
    &&& centroids[0] == pts[if first < pts.len() {
        first
    } else {
        0
    }]
    &&& forall|j: int|
        1 <= j < stop ==> #[trigger] drawn_at(distance, choose_next, pts, draws, centroids, j)
    &&& stop < k ==> chosen(
        choose_next,
        least_distances(distance, pts, centroids, stop),
        draws[stop],
        None,
    )
}

/// Chooses the centroids that a foreground palette starts from.
pub fn draw_centroids<
    P: Copy,
    D: Fn(&P, &P) -> Scalar,
    C: Fn(&Vec<Scalar>, u64) -> Option<usize>,
>(
    pts: &[P],
    k: usize,
    first: usize,
    draws: &[u64],
    distance: &D,
    choose_next: &C,
) -> (centroids: Vec<P>)
    requires
        pts@.len() > 0,
        k >= 1,
        draws@.len() >= k,
        is_distance(*distance),
        is_chooser(*choose_next),
    ensures
        is_drawing(
            *distance,
            *choose_next,
            pts@,
            first as int,
            draws@,
            k as int,
            centroids@,
        ),
{
    let n = pts.len();
    let mut centroids: Vec<P> = Vec::new();
    if first < n {
        centroids.push(pts[first]);
    } else {
        centroids.push(pts[0]);
    }
    let mut least: Vec<Scalar> = Vec::new();
    let mut i: usize = 0;
    while i < n
        invariant
            i <= n,
            n == pts@.len(),
            least@.len() == i,
            forall|q: int|
                #![trigger least@[q]]
                0 <= q < i ==> least@[q] == least_distance(*distance, pts@[q], centroids@, 0),
        decreases n - i,
    {
        least.push(Scalar::new(MAX_BITS));
        i += 1;
    }
    let mut j: usize = 1;
    while j < k
        invariant
            n == pts@.len(),
            n > 0,
            1 <= j <= k,
            draws@.len() >= k,
            is_distance(*distance),
            is_chooser(*choose_next),
            centroids@.len() == j,
            centroids@[0] == pts@[if first < n {
                first as int
            } else {
                0
            }],
            least@.len() == n,
            forall|q: int|
                #![trigger least@[q]]
                0 <= q < n ==> least@[q] == least_distance(*distance, pts@[q], centroids@, j - 1),
            forall|q: int|
                1 <= q < j ==> #[trigger] drawn_at(
                    *distance,
                    *choose_next,
                    pts@,
                    draws@,
                    centroids@,
                    q,
                ),
        decreases k - j,
    {
        let last = centroids[j - 1];
        let mut i: usize = 0;
        while i < n
            invariant
                i <= n,
                n == pts@.len(),
                1 <= j,
                centroids@.len() == j,
                last == centroids@[j - 1],
                is_distance(*distance),
                least@.len() == n,
                forall|q: int|
                    #![trigger least@[q]]
                    0 <= q < n ==> least@[q] == least_distance(
                        *distance,
                        pts@[q],
                        centroids@,
                        if q < i {
                            j as int
                        } else {
                            j - 1
                        },
                    ),
            decreases n - i,
        {
            let d = (*distance)(&pts[i], &last);
            assert(d == apart(*distance, pts@[i as int], last));
            if d.less(&least[i]) {
                least.set(i, d);
            }
            i += 1;
        }
        let next = (*choose_next)(&least, draws[j]);
        let ghost before = centroids@;
        proof {
            assert(before.take(j as int) =~= before);
            assert(least@ =~= least_distances(*distance, pts@, before, j as int));
            assert(chosen(
                *choose_next,
                least_distances(*distance, pts@, before, j as int),
                draws@[j as int],
                next,
            ));
        }
        match next {
            Some(at) => {
                centroids.push(pts[at]);
                proof {
                    drawing_prefix(*distance, *choose_next, pts@, draws@, before, centroids@);
                    assert(centroids@.take(j as int) =~= before);
                    assert(drawn_at(
                        *distance,
                        *choose_next,
                        pts@,
                        draws@,
                        centroids@,
                        j as int,
                    ));
                    assert forall|q: int| #![trigger least@[q]] 0 <= q < n implies least@[q]
                        == least_distance(*distance, pts@[q], centroids@, j as int) by {
                        least_distance_of_prefix(
                            *distance,
                            pts@[q],
                            before,
                            centroids@,
                            j as int,
                        );
                    }
                }
                j += 1;
            },
            None => {
                return centroids;
            },
        }
    }
    centroids
}

/// Choosing looks at the centroids so far only.
proof fn drawing_prefix<
    P,
    D: Fn(&P, &P) -> Scalar,
    C: Fn(&Vec<Scalar>, u64) -> Option<usize>,
>(distance: D, choose_next: C, pts: Seq<P>, draws: Seq<u64>, a: Seq<P>, b: Seq<P>)
    requires
        a.len() <= b.len(),
        forall|i: int| #![trigger a[i]] 0 <= i < a.len() ==> a[i] == b[i],
        forall|j: int|
            1 <= j < a.len() ==> #[trigger] drawn_at(distance, choose_next, pts, draws, a, j),
    ensures
        forall|j: int|
            1 <= j < a.len() ==> #[trigger] drawn_at(distance, choose_next, pts, draws, b, j),
{
    assert forall|j: int| 1 <= j < a.len() implies #[trigger] drawn_at(
        distance,
        choose_next,
        pts,
        draws,
        b,
        j,
    ) by {
        assert(a[j] == b[j]);
        assert(a.take(j) =~= b.take(j));
        assert(drawn_at(distance, choose_next, pts, draws, a, j));
    }
}

/// Rounds that centroids of weighted pixels get to settle.
pub const PALETTE_ROUNDS: usize = 20;

/// Seed of the draws.
pub const PALETTE_SEED: u64 = 42;

/// The smaller of two numbers.
pub open spec fn smaller(a: int, b: int) -> int {
    if a <= b {
        a
    } else {
        b
    }
}

/// `e` is made of the centre of a cluster and of the pixels in it.
pub open spec fn entry_of<P, T: Fn(&P, &Vec<usize>) -> PaletteEntry>(
    entry: T,
    center: P,
    members: Seq<usize>,
    e: PaletteEntry,
) -> bool {
    exists|g: Vec<usize>| #[trigger] call_ensures(entry, (&center, &g), e) && g@ == members
}

/// There is one entry for each cluster of a round, made of its centre and pixels.
pub open spec fn entries_of_round<P, T: Fn(&P, &Vec<usize>) -> PaletteEntry>(
    entry: T,
    round: Round<P>,
    n: int,
    out: Seq<PaletteEntry>,
) -> bool {
    &&& out.len() == round.centroids.len()
    &&& forall|i: int|
        #![trigger out[i]]
        0 <= i < out.len() ==> entry_of(
            entry,
            round.centroids[i],
            samples_of(round.assign, counted(n), i, n),
            out[i],
        )
}

/// The palette has an entry for each cluster: the first centroid is the one that
/// `first_of` makes of the first draw, more are chosen with the draws after it,
/// the clusters settle in rounds, and `entry` describes each of them.
pub open spec fn clustered_palette<
    P,
    O: Fn(u64) -> usize,
    D: Fn(&P, &P) -> Scalar,
    C: Fn(&Vec<Scalar>, u64) -> Option<usize>,
    U: Fn(&Vec<usize>, &Vec<P>) -> Vec<P>,
    T: Fn(&P, &Vec<usize>) -> PaletteEntry,
>(
    first_of: O,
    distance: D,
    choose_next: C,
    update: U,
    entry: T,
    pts: Seq<P>,
    draws: Seq<u64>,
    k: int,
    first: usize,
    start: Seq<P>,
    rounds: Seq<Round<P>>,
    out: Seq<PaletteEntry>,
) -> bool {
    &&& call_ensures(first_of, (draws[0],), first)
    &&& is_drawing(distance, choose_next, pts, first as int, draws, k, start)
    &&& is_run(distance, update, pts, start, PALETTE_ROUNDS as int, rounds)
    &&& entries_of_round(entry, rounds.last(), pts.len() as int, out)
}

/// The palette of clustered points, by some centroids and rounds.
pub open spec fn is_clustered_palette<
    P,
    O: Fn(u64) -> usize,
    D: Fn(&P, &P) -> Scalar,
    C: Fn(&Vec<Scalar>, u64) -> Option<usize>,
    U: Fn(&Vec<usize>, &Vec<P>) -> Vec<P>,
    T: Fn(&P, &Vec<usize>) -> PaletteEntry,
>(
    first_of: O,
    distance: D,
    choose_next: C,
    update: U,
    entry: T,
    pts: Seq<P>,
    draws: Seq<u64>,
    k: int,
    out: Seq<PaletteEntry>,
) -> bool {
    exists|first: usize, start: Seq<P>, rounds: Seq<Round<P>>| #[trigger]
        clustered_palette(
            first_of,
            distance,
            choose_next,
            update,
            entry,
            pts,
            draws,
            k,
            first,
            start,
            rounds,
            out,
        )
}

/// Describes the clusters of weighted pixels, given the draws that choose the
/// centroids.
pub fn cluster_palette<
    P: Copy,
    O: Fn(u64) -> usize,
    D: Fn(&P, &P) -> Scalar,
    C: Fn(&Vec<Scalar>, u64) -> Option<usize>,
    U: Fn(&Vec<usize>, &Vec<P>) -> Vec<P>,
    T: Fn(&P, &Vec<usize>) -> PaletteEntry,
>(
    pts: &[P],
    k: usize,
    draws: &[u64],
    first_of: &O,
    distance: &D,
    choose_next: &C,
    update: &U,
    entry: &T,
) -> (out: Vec<PaletteEntry>)
    requires
        pts@.len() > 0,
        1 <= k <= draws@.len(),
        forall|d: u64| #[trigger] call_requires(*first_of, (d,)),
        is_distance(*distance),
        is_chooser(*choose_next),
        is_update(*update),
        forall|p: &P, g: &Vec<usize>| #[trigger] call_requires(*entry, (p, g)),
    ensures
        is_clustered_palette(
            *first_of,
            *distance,
            *choose_next,
            *update,
            *entry,
            pts@,
            draws@,
            k as int,
            out@,
        ),
        1 <= out@.len() <= k,
{
    let n = pts.len();
    let draw = draws[0];
    assert(call_requires(*first_of, (draw,)));
    let first = first_of(draw);
    let start = draw_centroids(pts, k, first, draws, distance, choose_next);
    let ghost seeds = start@;
    let (assign, centers) = iterate(pts, start, PALETTE_ROUNDS, distance, update);
    let ghost rounds = choose|rounds: Seq<Round<P>>|
        {
            &&& #[trigger] is_run(
                *distance,
                *update,
                pts@,
                seeds,
                PALETTE_ROUNDS as int,
                rounds,
            )
            &&& assign@ == rounds.last().assign
            &&& centers@ == rounds.last().centroids
        };
    let all = count_up(n);
    let groups = group_samples(assign.as_slice(), all.as_slice(), centers.len());
    let mut out: Vec<PaletteEntry> = Vec::new();
    let mut i: usize = 0;
    while i < centers.len()
        invariant
            i <= centers@.len(),
            groups@.len() == centers@.len(),
            out@.len() == i,
            forall|p: &P, g: &Vec<usize>| #[trigger] call_requires(*entry, (p, g)),
            forall|c: int|
                #![trigger groups@[c]]
                0 <= c < groups@.len() ==> groups@[c]@ == samples_of(
                    assign@,
                    counted(n as int),
                    c,
                    n as int,
                ),
            forall|c: int|
                #![trigger out@[c]]
                0 <= c < i ==> entry_of(
                    *entry,
                    centers@[c],
                    samples_of(assign@, counted(n as int), c, n as int),
                    out@[c],
                ),
        decreases centers@.len() - i,
    {
        assert(call_requires(*entry, (&centers@[i as int], &groups@[i as int])));
        let e = entry(&centers[i], &groups[i]);
        assert(call_ensures(*entry, (&centers@[i as int], &groups@[i as int]), e));
        assert(entry_of(
            *entry,
            centers@[i as int],
            samples_of(assign@, counted(n as int), i as int, n as int),
            e,
        ));
        out.push(e);
        i += 1;
    }
    proof {
        assert(clustered_palette(
            *first_of,
            *distance,
            *choose_next,
            *update,
            *entry,
            pts@,
            draws@,
            k as int,
            first,
            seeds,
            rounds,
            out@,
        ));
    }
    out
}

/// A palette takes at most twenty rounds, and fewer only where the clusters have
/// settled.
pub proof fn palettes_take_twenty_rounds<
    P,
    O: Fn(u64) -> usize,
    D: Fn(&P, &P) -> Scalar,
    C: Fn(&Vec<Scalar>, u64) -> Option<usize>,
    U: Fn(&Vec<usize>, &Vec<P>) -> Vec<P>,
    T: Fn(&P, &Vec<usize>) -> PaletteEntry,
>(
    first_of: O,
    distance: D,
    choose_next: C,
    update: U,
    entry: T,
    pts: Seq<P>,
    draws: Seq<u64>,
    k: int,
    first: usize,
    start: Seq<P>,
    rounds: Seq<Round<P>>,
    out: Seq<PaletteEntry>,
)
    requires
        clustered_palette(
            first_of,
            distance,
            choose_next,
            update,
            entry,
            pts,
            draws,
            k,
            first,
            start,
            rounds,
            out,
        ),
    ensures
        1 <= rounds.len() <= 21,
        rounds.len() < 21 ==> rounds.last().assign == crate::kmeans::assignment(
            distance,
            pts,
            rounds.last().centroids,
        ),
        rounds[0].centroids == start,
        call_ensures(first_of, (draws[0],), first),
        first < pts.len() ==> start[0] == pts[first as int],
        first >= pts.len() ==> start[0] == pts[0],
        out.len() == rounds.last().centroids.len(),
{
    crate::kmeans::runs_are_bounded(distance, update, pts, start, 20, rounds);
    if rounds.len() < 21 {
        crate::kmeans::settled_runs_are_stable(distance, update, pts, start, 20, rounds);
    }
}

/// Describes up to `k` clusters of weighted pixels; nothing where there are no
/// pixels or no clusters.
pub fn kmeans_pp<
    P: Copy,
    O: Fn(u64) -> usize,
    D: Fn(&P, &P) -> Scalar,
    C: Fn(&Vec<Scalar>, u64) -> Option<usize>,
    U: Fn(&Vec<usize>, &Vec<P>) -> Vec<P>,
    T: Fn(&P, &Vec<usize>) -> PaletteEntry,
>(
    pts: &[P],
    k: usize,
    first_of: &O,
    distance: &D,
    choose_next: &C,
    update: &U,
    entry: &T,
) -> (out: Vec<PaletteEntry>)
    requires
        8 * pts@.len() <= isize::MAX,
        forall|d: u64| #[trigger] call_requires(*first_of, (d,)),
        is_distance(*distance),
        is_chooser(*choose_next),
        is_update(*update),
        forall|p: &P, g: &Vec<usize>| #[trigger] call_requires(*entry, (p, g)),
    ensures
        out@.len() <= smaller(k as int, pts@.len() as int),
        pts@.len() > 0 && k > 0 ==> out@.len() > 0,
        pts@.len() > 0 && k > 0 ==> is_clustered_palette(
            *first_of,
            *distance,
            *choose_next,
            *update,
            *entry,
            pts@,
            generated(42, smaller(k as int, pts@.len() as int)),
            smaller(k as int, pts@.len() as int),
            out@,
        ),
{
    let n = pts.len();
    if n == 0 || k == 0 {
        return Vec::new();
    }
    let kk: usize = if k <= n {
        k
    } else {
        n
    };
    let draws = draw_numbers(PALETTE_SEED, kk);
    cluster_palette(pts, kk, draws.as_slice(), first_of, distance, choose_next, update, entry)
}

/// There is one entry for each set of pixels.
pub open spec fn entries_of_sets<S: Fn(&Vec<usize>, bool) -> PaletteEntry>(
    describe: S,
    weighted: bool,
    sets: Seq<Seq<usize>>,
    out: Seq<PaletteEntry>,
) -> bool {
    &&& out.len() == sets.len()
    &&& forall|i: int|
        #![trigger out[i]]
        0 <= i < out.len() ==> set_entry(describe, weighted, sets[i], out[i])
}

/// `e` describes a set of pixels.
pub open spec fn set_entry<S: Fn(&Vec<usize>, bool) -> PaletteEntry>(
    describe: S,
    weighted: bool,
    members: Seq<usize>,
    e: PaletteEntry,
) -> bool {
    exists|g: Vec<usize>| #[trigger] call_ensures(describe, (&g, weighted), e) && g@ == members
}

/// Describes up to `k` sets of similar pixels; nothing where there are no pixels
/// or no sets. `describe` makes an entry of a set, with the weights or without.
pub fn median_cut_palette<
    W: Fn(Scalar, Scalar) -> Scalar,
    S: Fn(&Vec<usize>, bool) -> PaletteEntry,
>(axes: &Axes, k: usize, weighted: bool, width: &W, describe: &S) -> (out: Vec<PaletteEntry>)
    requires
        axes.wf(),
        is_width(*width),
        forall|g: &Vec<usize>, b: bool| #[trigger] call_requires(*describe, (g, b)),
    ensures
        out@.len() <= smaller(k as int, axes.x@.len() as int),
        axes.x@.len() > 0 && k > 0 ==> out@.len() > 0,
        axes.x@.len() > 0 && k > 0 ==> entries_of_sets(
            *describe,
            weighted,
            halved(
                *axes,
                *width,
                counted(axes.x@.len() as int),
                smaller(k as int, axes.x@.len() as int),
                0,
            ),
            out@,
        ),
{
    let n = axes.x.len();
    if n == 0 || k == 0 {
        return Vec::new();
    }
    let kk: usize = if k <= n {
        k
    } else {
        n
    };
    let sets = median_cut_recursive(axes, count_up(n), kk, 0, width);
    let ghost goal = halved(*axes, *width, counted(n as int), kk as int, 0);
    assert(contents(sets@).len() == sets@.len());
    let mut out: Vec<PaletteEntry> = Vec::new();
    let mut i: usize = 0;
    while i < sets.len()
        invariant
            i <= sets@.len(),
            contents(sets@) == goal,
            goal.len() == sets@.len(),
            out@.len() == i,
            forall|g: &Vec<usize>, b: bool| #[trigger] call_requires(*describe, (g, b)),
            forall|c: int|
                #![trigger out@[c]]
                0 <= c < i ==> set_entry(*describe, weighted, goal[c], out@[c]),
        decreases sets@.len() - i,
    {
        assert(call_requires(*describe, (&sets@[i as int], weighted)));
        let e = describe(&sets[i], weighted);
        assert(call_ensures(*describe, (&sets@[i as int], weighted), e));
        assert(contents(sets@)[i as int] == sets@[i as int]@);
        assert(set_entry(*describe, weighted, goal[i as int], e));
        out.push(e);
        i += 1;
    }
    out
}

/// The number of colours of a foreground palette: as many as asked for and as the
/// weight allows, but at least two.
pub open spec fn color_count(colors: int, effective_weight: int) -> int {
    if smaller(colors, effective_weight) >= 2 {
        smaller(colors, effective_weight)
    } else {
        2
    }
}

/// A palette has at least two colours asked for, and above that no more than are
/// wanted and no more than the weight supports.
pub proof fn color_count_is_clamped(colors: int, effective_weight: int)
    ensures
        color_count(colors, effective_weight) >= 2,
        color_count(colors, effective_weight) > 2 ==> color_count(colors, effective_weight)
            <= colors && color_count(colors, effective_weight) <= effective_weight,
        colors >= 2 && effective_weight >= colors ==> color_count(colors, effective_weight)
            == colors,
        effective_weight >= 2 && colors >= effective_weight ==> color_count(
            colors,
            effective_weight,
        ) == effective_weight,
{
}

/// Extracts the palette of the foreground by the named method. `pts` are the
/// weighted pixels, `axes` the colours without weights; `effective_weight` is the
/// whole weight, rounded down.
pub fn extract_palette<
    P: Copy,
    O: Fn(u64) -> usize,
    D: Fn(&P, &P) -> Scalar,
    C: Fn(&Vec<Scalar>, u64) -> Option<usize>,
    U: Fn(&Vec<usize>, &Vec<P>) -> Vec<P>,
    T: Fn(&P, &Vec<usize>) -> PaletteEntry,
    W: Fn(Scalar, Scalar) -> Scalar,
    S: Fn(&Vec<usize>, bool) -> PaletteEntry,
>(
    pts: &[P],
    axes: &Axes,
    total_weight: Scalar,
    effective_weight: usize,
    colors: usize,
    algorithm: &str,
    first_of: &O,
    distance: &D,
    choose_next: &C,
    update: &U,
    entry: &T,
    width: &W,
    describe: &S,
) -> (out: Vec<PaletteEntry>)
    requires
        8 * pts@.len() <= isize::MAX,
        axes.wf(),
        axes.x@.len() == pts@.len(),
        forall|d: u64| #[trigger] call_requires(*first_of, (d,)),
        is_distance(*distance),
        is_chooser(*choose_next),
        is_update(*update),
        forall|p: &P, g: &Vec<usize>| #[trigger] call_requires(*entry, (p, g)),
        is_width(*width),
        forall|g: &Vec<usize>, b: bool| #[trigger] call_requires(*describe, (g, b)),
    ensures
        pts@.len() == 0 || total_weight.lt(Scalar { bits: LEAST_WEIGHT_BITS }) <==> out@.len() == 0,
        out@.len() <= color_count(colors as int, effective_weight as int),
        pts@.len() > 0 && !total_weight.lt(Scalar { bits: LEAST_WEIGHT_BITS }) ==> {
            let n = pts@.len() as int;
            let k = smaller(color_count(colors as int, effective_weight as int), n);
            let method = method_named(algorithm@);
            &&& method is KMeans || method is MiniBatch ==> is_clustered_palette(
                *first_of,
                *distance,
                *choose_next,
                *update,
                *entry,
                pts@,
                generated(42, k),
                k,
                out@,
            )
            &&& method is MedianCut || method is Octree ==> entries_of_sets(
                *describe,
                method is MedianCut,
                halved(*axes, *width, counted(n), k, 0),
                out@,
            )
        },
{
    match palette_plan(pts.len(), total_weight, colors, effective_weight, algorithm) {
        None => Vec::new(),
        Some((method, k)) => match method {
            PaletteMethod::KMeans => {
                kmeans_pp(pts, k, first_of, distance, choose_next, update, entry)
            },
            PaletteMethod::MiniBatch => {
                kmeans_pp(pts, k, first_of, distance, choose_next, update, entry)
            },
            PaletteMethod::MedianCut => median_cut_palette(axes, k, true, width, describe),
            PaletteMethod::Octree => median_cut_palette(axes, k, false, width, describe),
        },
    }
}

/// Every set of pixels has one entry, which describes just its members.
pub proof fn entries_describe_their_sets<S: Fn(&Vec<usize>, bool) -> PaletteEntry>(
    describe: S,
    weighted: bool,
    sets: Seq<Seq<usize>>,
    out: Seq<PaletteEntry>,
    i: int,
) -> (g: Vec<usize>)
    requires
        entries_of_sets(describe, weighted, sets, out),
        0 <= i < sets.len(),
    ensures
        out.len() == sets.len(),
        g@ == sets[i],
        call_ensures(describe, (&g, weighted), out[i]),
{
    assert(set_entry(describe, weighted, sets[i], out[i]));
    let e = out[i];
    choose|g: Vec<usize>| #[trigger] call_ensures(describe, (&g, weighted), e) && g@ == sets[i]
}

} // verus!
