//! Dividing an image's pixels into colour clusters by repeated median cuts.

use vstd::prelude::*;
use crate::quantile::{all_numbers, median_value, picked, ranked};
use crate::scalar::Scalar;

verus! {

/// A cluster of pixels, with a summary of their colours.
#[derive(Clone, Debug)]
pub struct Cluster<S> {
    /// The pixels of the cluster.
    pub indices: Vec<usize>,
    /// What callers derive from the pixels: means, variances and the like.
    pub summary: S,
}

/// How far the colours of a cluster spread.
#[derive(Clone, Copy, Debug)]
pub struct Spread {
    /// Variance of the first channel.
    pub l: Scalar,
    /// Variance of the second channel.
    pub a: Scalar,
    /// Variance of the third channel.
    pub b: Scalar,
    /// Sum of the three variances.
    pub total: Scalar,
}

/// Limits of the division.
#[derive(Clone, Copy, Debug)]
pub struct CutLimits {
    /// Greatest number of successive cuts.
    pub max_depth: usize,
    /// Total variance below which a cluster is not cut.
    pub variance_threshold: Scalar,
}

/// The channel to cut: the first with the greatest variance.
pub open spec fn widest_channel(s: Spread) -> int {
    if s.a.le(s.l) && s.b.le(s.l) {
        0
    } else if s.b.le(s.a) {
        1
    } else {
        2
    }
}

/// A cut this uneven is not made: one side is empty or holds more than 95 in a
/// hundred.
pub open spec fn lopsided(left: int, right: int) -> bool {
    ||| left == 0
    ||| right == 0
    ||| 20 * left > 19 * (left + right)
    ||| 20 * right > 19 * (left + right)
}

/// The first `k` indices whose value is at most `m`, or greater than `m`.
pub open spec fn side(
    data: Seq<Scalar>,
    indices: Seq<usize>,
    m: Scalar,
    low: bool,
    k: int,
) -> Seq<usize>
    decreases k,
{
    if k <= 0 {
        seq![]
    } else {
        let before = side(data, indices, m, low, k - 1);
        if data[indices[k - 1] as int].le(m) == low {
            before.push(indices[k - 1])
        } else {
            before
        }
    }
}

/// The cluster's summary is that of its pixels.
pub open spec fn summarised<S, F: Fn(&Vec<usize>) -> S>(summarise: F, c: Cluster<S>) -> bool {
    call_ensures(summarise, (&c.indices,), c.summary)
}

/// The channel with number `c`.
pub open spec fn channel(
    l: Seq<Scalar>,
    a: Seq<Scalar>,
    b: Seq<Scalar>,
    c: int,
) -> Seq<Scalar> {
    if c == 0 {
        l
    } else if c == 1 {
        a
    } else {
        b
    }
}

/// How clusters come about: a cluster that is final, or one that is cut into the
/// pixels at most and those above the median of its widest channel.
pub ghost enum CutTree<S> {
    Leaf { cluster: Cluster<S>, spread: Spread, median: Scalar },
    Fork {
        cluster: Cluster<S>,
        spread: Spread,
        median: Scalar,
        low: Box<CutTree<S>>,
        high: Box<CutTree<S>>,
    },
}

/// The final clusters, from low to high.
pub open spec fn leaves<S>(tree: CutTree<S>) -> Seq<Cluster<S>>
    decreases tree,
{
    match tree {
        CutTree::Leaf { cluster, .. } => seq![cluster],
        CutTree::Fork { low, high, .. } => leaves(*low) + leaves(*high),
    }
}

/// `s` is the spread of the cluster and `m` the median of its widest channel.
pub open spec fn measured<S, G: Fn(&S) -> Spread>(
    l: Seq<Scalar>,
    a: Seq<Scalar>,
    b: Seq<Scalar>,
    spread: G,
    c: Cluster<S>,
    s: Spread,
    m: Scalar,
) -> bool {
    &&& call_ensures(spread, (&c.summary,), s)
    &&& ranked(
        picked(channel(l, a, b, widest_channel(s)), c.indices@),
        c.indices@.len() as int / 2,
        m,
    )
}

/// One side of the cut of these pixels.
pub open spec fn half(
    l: Seq<Scalar>,
    a: Seq<Scalar>,
    b: Seq<Scalar>,
    indices: Seq<usize>,
    s: Spread,
    m: Scalar,
    low: bool,
) -> Seq<usize> {
    side(channel(l, a, b, widest_channel(s)), indices, m, low, indices.len() as int)
}

/// A cluster that spreads this little, or would be cut this unevenly, is final.
pub open spec fn stays_whole(
    l: Seq<Scalar>,
    a: Seq<Scalar>,
    b: Seq<Scalar>,
    indices: Seq<usize>,
    s: Spread,
    m: Scalar,
    lim: CutLimits,
) -> bool {
    ||| s.total.lt(lim.variance_threshold)
    ||| lopsided(
        half(l, a, b, indices, s, m, true).len() as int,
        half(l, a, b, indices, s, m, false).len() as int,
    )
}

/// The tree divides `indices`: a cluster is final when it has one pixel, lies at
/// the greatest depth, spreads little, or would be cut unevenly; any other is
/// cut, and each side divided in turn.
pub open spec fn divides<S, F: Fn(&Vec<usize>) -> S, G: Fn(&S) -> Spread>(
    tree: CutTree<S>,
    l: Seq<Scalar>,
    a: Seq<Scalar>,
    b: Seq<Scalar>,
    indices: Seq<usize>,
    depth: int,
    lim: CutLimits,
    summarise: F,
    spread: G,
) -> bool
    decreases tree,
{
    match tree {
        CutTree::Leaf { cluster, spread: s, median: m } => {
            &&& cluster.indices@ == indices
            &&& summarised(summarise, cluster)
            &&& {
                ||| indices.len() <= 1
                ||| depth >= lim.max_depth
                ||| measured(l, a, b, spread, cluster, s, m) && stays_whole(
                    l,
                    a,
                    b,
                    indices,
                    s,
                    m,
                    lim,
                )
            }
        },
        CutTree::Fork { cluster, spread: s, median: m, low, high } => {
            &&& cluster.indices@ == indices
            &&& summarised(summarise, cluster)
            &&& indices.len() > 1
            &&& depth < lim.max_depth
            &&& measured(l, a, b, spread, cluster, s, m)
            &&& !stays_whole(l, a, b, indices, s, m, lim)
            &&& divides(
                *low,
                l,
                a,
                b,
                half(l, a, b, indices, s, m, true),
                depth + 1,
                lim,
                summarise,
                spread,
            )
            &&& divides(
                *high,
                l,
                a,
                b,
                half(l, a, b, indices, s, m, false),
                depth + 1,
                lim,
                summarise,
                spread,
            )
        },
    }
}

/// `out` is the division of `indices` by median cuts.
pub open spec fn cut_into<S, F: Fn(&Vec<usize>) -> S, G: Fn(&S) -> Spread>(
    l: Seq<Scalar>,
    a: Seq<Scalar>,
    b: Seq<Scalar>,
    indices: Seq<usize>,
    depth: int,
    lim: CutLimits,
    summarise: F,
    spread: G,
    out: Seq<Cluster<S>>,
) -> bool {
    exists|tree: CutTree<S>|
        #[trigger] divides(tree, l, a, b, indices, depth, lim, summarise, spread) && out == leaves(
            tree,
        )
}

/// The pixels of all clusters, one cluster after the other.
pub open spec fn all_pixels<S>(clusters: Seq<Cluster<S>>) -> Seq<usize>
    decreases clusters.len(),
{
    if clusters.len() == 0 {
        seq![]
    } else {
        all_pixels(clusters.drop_last()) + clusters.last().indices@
    }
}

/// All pixels of consecutive runs of clusters.
pub proof fn all_pixels_of_runs<S>(clusters: Seq<Cluster<S>>, k: int)
    requires
        0 <= k <= clusters.len(),
    ensures
        all_pixels(clusters) == all_pixels(clusters.take(k)) + all_pixels(clusters.skip(k)),
    decreases clusters.len(),
{
    if k == clusters.len() {
        assert(clusters.take(k) =~= clusters);
        assert(clusters.skip(k) =~= seq![]);
        assert(all_pixels(clusters) =~= all_pixels(clusters.take(k)) + all_pixels(
            clusters.skip(k),
        ));
    } else {
        let rest = clusters.drop_last();
        all_pixels_of_runs(rest, k);
        assert(rest.take(k) =~= clusters.take(k));
        assert(clusters.skip(k).drop_last() =~= rest.skip(k));
        assert(clusters.skip(k).last() == clusters.last());
        assert(all_pixels(clusters) =~= all_pixels(clusters.take(k)) + all_pixels(
            clusters.skip(k),
        ));
    }
}

/// The two sides of a cut hold, together, the pixels that were cut.
pub proof fn sides_are_everything(data: Seq<Scalar>, indices: Seq<usize>, m: Scalar, k: int)
    requires
        0 <= k <= indices.len(),
    ensures
        (side(data, indices, m, true, k) + side(data, indices, m, false, k)).to_multiset()
            == indices.take(k).to_multiset(),
        side(data, indices, m, true, k).len() + side(data, indices, m, false, k).len() == k,
    decreases k,
{
    broadcast use vstd::seq_lib::group_to_multiset_ensures;

    let left = side(data, indices, m, true, k);
    let right = side(data, indices, m, false, k);
    vstd::seq_lib::lemma_multiset_commutative(left, right);
    if k > 0 {
        sides_are_everything(data, indices, m, k - 1);
        let left0 = side(data, indices, m, true, k - 1);
        let right0 = side(data, indices, m, false, k - 1);
        vstd::seq_lib::lemma_multiset_commutative(left0, right0);
        let x = indices[k - 1];
        assert(indices.take(k) =~= indices.take(k - 1).push(x));
        assert(indices.take(k).to_multiset() =~= indices.take(k - 1).to_multiset().insert(x));
        if data[x as int].le(m) {
            assert(left.to_multiset() =~= left0.to_multiset().insert(x));
            assert((left + right).to_multiset() =~= (left0 + right0).to_multiset().insert(x));
        } else {
            assert(right.to_multiset() =~= right0.to_multiset().insert(x));
            assert((left + right).to_multiset() =~= (left0 + right0).to_multiset().insert(x));
        }
    } else {
        assert(left + right =~= indices.take(0));
    }
}

/// Cutting loses no pixel and adds none: the clusters hold, together, the pixels
/// that were divided.
pub proof fn cuts_keep_pixels<S, F: Fn(&Vec<usize>) -> S, G: Fn(&S) -> Spread>(
    l: Seq<Scalar>,
    a: Seq<Scalar>,
    b: Seq<Scalar>,
    indices: Seq<usize>,
    depth: int,
    lim: CutLimits,
    summarise: F,
    spread: G,
    out: Seq<Cluster<S>>,
)
    requires
        cut_into(l, a, b, indices, depth, lim, summarise, spread, out),
    ensures
        all_pixels(out).to_multiset() == indices.to_multiset(),
        out.len() >= 1,
{
    let tree = choose|tree: CutTree<S>|
        #[trigger] divides(tree, l, a, b, indices, depth, lim, summarise, spread) && out == leaves(
            tree,
        );
    tree_keeps_pixels(tree, l, a, b, indices, depth, lim, summarise, spread);
}

proof fn tree_keeps_pixels<S, F: Fn(&Vec<usize>) -> S, G: Fn(&S) -> Spread>(
    tree: CutTree<S>,
    l: Seq<Scalar>,
    a: Seq<Scalar>,
    b: Seq<Scalar>,
    indices: Seq<usize>,
    depth: int,
    lim: CutLimits,
    summarise: F,
    spread: G,
)
    requires
        divides(tree, l, a, b, indices, depth, lim, summarise, spread),
    ensures
        all_pixels(leaves(tree)).to_multiset() == indices.to_multiset(),
        leaves(tree).len() >= 1,
    decreases tree,
{
    match tree {
        CutTree::Leaf { cluster, .. } => {
            let out = seq![cluster];
            assert(out.drop_last() =~= seq![]);
            assert(all_pixels(out.drop_last()) =~= seq![]);
            assert(out.last() == cluster);
            assert(all_pixels(out) =~= indices);
        },
        CutTree::Fork { cluster, spread: s, median: m, low, high } => {
            let left = half(l, a, b, indices, s, m, true);
            let right = half(l, a, b, indices, s, m, false);
            tree_keeps_pixels(*low, l, a, b, left, depth + 1, lim, summarise, spread);
            tree_keeps_pixels(*high, l, a, b, right, depth + 1, lim, summarise, spread);
            let out = leaves(*low) + leaves(*high);
            let k = leaves(*low).len() as int;
            all_pixels_of_runs(out, k);
            assert(out.take(k) =~= leaves(*low));
            assert(out.skip(k) =~= leaves(*high));
            sides_are_everything(
                channel(l, a, b, widest_channel(s)),
                indices,
                m,
                indices.len() as int,
            );
            assert(indices.take(indices.len() as int) =~= indices);
            vstd::seq_lib::lemma_multiset_commutative(
                all_pixels(leaves(*low)),
                all_pixels(leaves(*high)),
            );
            vstd::seq_lib::lemma_multiset_commutative(left, right);
        },
    }
}

/// Where variances are numbers, none of the three channels varies more than the
/// widest, and every earlier one varies less.
pub proof fn widest_varies_most(s: Spread)
    requires
        !s.l.is_nan(),
        !s.a.is_nan(),
        !s.b.is_nan(),
    ensures
        0 <= widest_channel(s) <= 2,
        widest_channel(s) == 0 ==> s.a.le(s.l) && s.b.le(s.l),
        widest_channel(s) == 1 ==> s.l.lt(s.a) && s.b.le(s.a),
        widest_channel(s) == 2 ==> s.l.lt(s.b) && s.a.lt(s.b),
{
}

/// A cut is lopsided exactly where one side has less than a twentieth of the
/// pixels, or none.
pub proof fn lopsided_leaves_crumbs(left: int, right: int)
    requires
        0 <= left,
        0 <= right,
    ensures
        lopsided(left, right) <==> left == 0 || right == 0 || 20 * left < left + right || 20 * right
            < left + right,
        lopsided(left, right) == lopsided(right, left),
{
}

/// The low side of a cut holds values up to the middle one, the high side the
/// others.
pub proof fn sides_are_parted(
    data: Seq<Scalar>,
    indices: Seq<usize>,
    m: Scalar,
    low: bool,
    k: int,
    j: int,
)
    requires
        0 <= k <= indices.len(),
        0 <= j < side(data, indices, m, low, k).len(),
    ensures
        low ==> data[side(data, indices, m, low, k)[j] as int].le(m),
        !low ==> !data[side(data, indices, m, low, k)[j] as int].le(m),
    decreases k,
{
    if k > 0 {
        let before = side(data, indices, m, low, k - 1);
        if j < before.len() {
            sides_are_parted(data, indices, m, low, k - 1, j);
            assert(side(data, indices, m, low, k)[j] == before[j]);
        }
    }
}

proof fn fork_has_two<S, F: Fn(&Vec<usize>) -> S, G: Fn(&S) -> Spread>(
    tree: CutTree<S>,
)
    ensures
        leaves(tree).len() >= 1,
        tree is Fork ==> leaves(tree).len() >= 2,
    decreases tree,
{
    if let CutTree::Fork { low, high, .. } = tree {
        fork_has_two::<S, F, G>(*low);
        fork_has_two::<S, F, G>(*high);
    }
}

/// Pixels whose variance stays below the threshold are not divided, nor are those
/// at the greatest depth, nor a single pixel.
pub proof fn even_pixels_stay_together<S, F: Fn(&Vec<usize>) -> S, G: Fn(&S) -> Spread>(
    l: Seq<Scalar>,
    a: Seq<Scalar>,
    b: Seq<Scalar>,
    indices: Seq<usize>,
    depth: int,
    lim: CutLimits,
    summarise: F,
    spread: G,
    out: Seq<Cluster<S>>,
)
    requires
        cut_into(l, a, b, indices, depth, lim, summarise, spread, out),
        indices.len() <= 1 || depth >= lim.max_depth || (forall|c: Cluster<S>, s: Spread|
            #![trigger summarised(summarise, c), call_ensures(spread, (&c.summary,), s)]
            c.indices@ == indices && summarised(summarise, c) && call_ensures(
                spread,
                (&c.summary,),
                s,
            ) ==> s.total.lt(lim.variance_threshold)),
    ensures
        out.len() == 1,
        out[0].indices@ == indices,
{
    let tree = choose|tree: CutTree<S>|
        #[trigger] divides(tree, l, a, b, indices, depth, lim, summarise, spread) && out == leaves(
            tree,
        );
}

/// Pixels that are not divided have a reason: there is but one, the depth is
/// reached, the variance is below the threshold, or a cut in the middle of the
/// channel that varies most leaves less than a twentieth of them on a side.
pub proof fn undivided_pixels_have_a_reason<S, F: Fn(&Vec<usize>) -> S, G: Fn(&S) -> Spread>(
    l: Seq<Scalar>,
    a: Seq<Scalar>,
    b: Seq<Scalar>,
    indices: Seq<usize>,
    depth: int,
    lim: CutLimits,
    summarise: F,
    spread: G,
    out: Seq<Cluster<S>>,
) -> (r: (Spread, Scalar, bool))
    requires
        cut_into(l, a, b, indices, depth, lim, summarise, spread, out),
        out.len() == 1,
        indices.len() > 1,
        depth < lim.max_depth,
    ensures
        call_ensures(spread, (&out[0].summary,), r.0),
        r.0.total.lt(lim.variance_threshold) || ({
            let c = if widest_channel(r.0) == 0 {
                l
            } else if widest_channel(r.0) == 1 {
                a
            } else {
                b
            };
            let n = indices.len() as int;
            let left = side(c, indices, r.1, true, n).len();
            let right = side(c, indices, r.1, false, n).len();
            ranked(picked(c, indices), n / 2, r.1) && (20 * left < n || 20 * right < n || left == 0
                || right == 0)
        }),
{
    let tree = choose|tree: CutTree<S>|
        #[trigger] divides(tree, l, a, b, indices, depth, lim, summarise, spread) && out == leaves(
            tree,
        );
    fork_has_two::<S, F, G>(tree);
    match tree {
        CutTree::Leaf { cluster, spread: s, median: m } => {
            let c = channel(l, a, b, widest_channel(s));
            let n = indices.len() as int;
            sides_count(c, indices, m, n);
            lopsided_leaves_crumbs(
                side(c, indices, m, true, n).len() as int,
                side(c, indices, m, false, n).len() as int,
            );
            (s, m, true)
        },
        CutTree::Fork { spread: s, median: m, .. } => (s, m, false),
    }
}

proof fn sides_count(data: Seq<Scalar>, indices: Seq<usize>, m: Scalar, k: int)
    requires
        0 <= k <= indices.len(),
    ensures
        side(data, indices, m, true, k).len() + side(data, indices, m, false, k).len() == k,
    decreases k,
{
    if k > 0 {
        sides_count(data, indices, m, k - 1);
    }
}

fn pick_channel(s: &Spread) -> (c: usize)
    ensures
        c == widest_channel(*s),
        c <= 2,
{
    if s.a.at_most(&s.l) && s.b.at_most(&s.l) {
        0
    } else if s.b.at_most(&s.a) {
        1
    } else {
        2
    }
}

/// The pixels at most and above `m`, in order.
fn cut_at(data: &[Scalar], indices: &[usize], m: Scalar) -> (r: (Vec<usize>, Vec<usize>))
    requires
        forall|k: int|
            #![trigger indices@[k]]
            0 <= k < indices@.len() ==> indices@[k] < data@.len(),
    ensures
        r.0@ == side(data@, indices@, m, true, indices@.len() as int),
        r.1@ == side(data@, indices@, m, false, indices@.len() as int),
        forall|k: int| #![trigger r.0@[k]] 0 <= k < r.0@.len() ==> r.0@[k] < data@.len(),
        forall|k: int| #![trigger r.1@[k]] 0 <= k < r.1@.len() ==> r.1@[k] < data@.len(),
{
    let mut left: Vec<usize> = Vec::new();
    let mut right: Vec<usize> = Vec::new();
    let mut k: usize = 0;
    while k < indices.len()
        invariant
            k <= indices@.len(),
            forall|k: int|
                #![trigger indices@[k]]
                0 <= k < indices@.len() ==> indices@[k] < data@.len(),
            left@ == side(data@, indices@, m, true, k as int),
            right@ == side(data@, indices@, m, false, k as int),
            forall|k: int| #![trigger left@[k]] 0 <= k < left@.len() ==> left@[k] < data@.len(),
            forall|k: int| #![trigger right@[k]] 0 <= k < right@.len() ==> right@[k] < data@.len(),
        decreases indices@.len() - k,
    {
        let i = indices[k];
        if data[i].at_most(&m) {
            left.push(i);
        } else {
            right.push(i);
        }
        k += 1;
    }
    (left, right)
}

/// Divides the pixels by repeated median cuts and appends the clusters.
///
/// `summarise` summarises the pixels of a cluster, `spread` tells from a summary
/// how far its colours spread.
pub fn median_cut_partition<S, F: Fn(&Vec<usize>) -> S, G: Fn(&S) -> Spread>(
    l: &[Scalar],
    a: &[Scalar],
    b: &[Scalar],
    indices: Vec<usize>,
    depth: usize,
    lim: &CutLimits,
    summarise: &F,
    spread: &G,
    clusters: &mut Vec<Cluster<S>>,
)
    requires
        all_numbers(l@),
        all_numbers(a@),
        all_numbers(b@),
        a@.len() == l@.len(),
        b@.len() == l@.len(),
        l@.len() <= u32::MAX,
        indices@.len() <= u32::MAX,
        forall|k: int|
            #![trigger indices@[k]]
            0 <= k < indices@.len() ==> indices@[k] < l@.len(),
        forall|v: &Vec<usize>| #[trigger] call_requires(*summarise, (v,)),
        forall|s: &S| #[trigger] call_requires(*spread, (s,)),
    ensures
        final(clusters)@.len() >= old(clusters)@.len(),
        final(clusters)@.take(old(clusters)@.len() as int) == old(clusters)@,
        cut_into(
            l@,
            a@,
            b@,
            indices@,
            depth as int,
            *lim,
            *summarise,
            *spread,
            final(clusters)@.skip(old(clusters)@.len() as int),
        ),
    decreases lim.max_depth - depth,
{
    let ghost before = clusters@;
    let ghost picked_indices = indices@;
    let summary = (*summarise)(&indices);
    if indices.len() <= 1 || depth >= lim.max_depth {
        let cluster = Cluster { indices, summary };
        clusters.push(cluster);
        proof {
            let any = Scalar { bits: 0 };
            let tree = CutTree::Leaf {
                cluster,
                spread: Spread { l: any, a: any, b: any, total: any },
                median: any,
            };
            assert(divides(
                tree,
                l@,
                a@,
                b@,
                picked_indices,
                depth as int,
                *lim,
                *summarise,
                *spread,
            ));
            assert(clusters@.take(before.len() as int) =~= before);
            assert(clusters@.skip(before.len() as int) =~= leaves(tree));
        }
        return;
    }
    let s = (*spread)(&summary);
    let c = pick_channel(&s);
    let data: &[Scalar] = if c == 0 {
        l
    } else if c == 1 {
        a
    } else {
        b
    };
    let m = median_value(data, &indices);
    let (left, right) = cut_at(data, &indices, m);
    let nl = left.len() as u64;
    let nr = right.len() as u64;
    let cluster = Cluster { indices, summary };
    proof {
        assert(data@ == channel(l@, a@, b@, widest_channel(s)));
        assert(measured(l@, a@, b@, *spread, cluster, s, m));
        sides_are_everything(data@, picked_indices, m, picked_indices.len() as int);
    }
    if s.total.less(&lim.variance_threshold) || nl == 0 || nr == 0 || 20 * nl > 19 * (nl + nr) || 20
        * nr > 19 * (nl + nr) {
        clusters.push(cluster);
        proof {
            let tree = CutTree::Leaf { cluster, spread: s, median: m };
            assert(divides(
                tree,
                l@,
                a@,
                b@,
                picked_indices,
                depth as int,
                *lim,
                *summarise,
                *spread,
            ));
            assert(clusters@.take(before.len() as int) =~= before);
            assert(clusters@.skip(before.len() as int) =~= leaves(tree));
        }
        return;
    }
    median_cut_partition(l, a, b, left, depth + 1, lim, summarise, spread, clusters);
    let ghost middle = clusters@;
    median_cut_partition(l, a, b, right, depth + 1, lim, summarise, spread, clusters);
    proof {
        let n0 = before.len() as int;
        let n1 = middle.len() as int;
        let low = choose|tree: CutTree<S>|
            #[trigger] divides(
                tree,
                l@,
                a@,
                b@,
                left@,
                depth + 1,
                *lim,
                *summarise,
                *spread,
            ) && middle.skip(n0) == leaves(tree);
        let high = choose|tree: CutTree<S>|
            #[trigger] divides(
                tree,
                l@,
                a@,
                b@,
                right@,
                depth + 1,
                *lim,
                *summarise,
                *spread,
            ) && clusters@.skip(n1) == leaves(tree);
        let tree = CutTree::Fork {
            cluster,
            spread: s,
            median: m,
            low: Box::new(low),
            high: Box::new(high),
        };
        assert(divides(
            tree,
            l@,
            a@,
            b@,
            picked_indices,
            depth as int,
            *lim,
            *summarise,
            *spread,
        ));
        assert(clusters@.take(n1) == middle);
        assert(clusters@.take(n0) =~= middle.take(n0)) by {
            assert forall|i: int| 0 <= i < n0 implies clusters@.take(n0)[i] == middle.take(n0)[i] by {
                assert(clusters@.take(n1)[i] == clusters@[i]);
            }
        }
        assert(clusters@.skip(n0) =~= middle.skip(n0) + clusters@.skip(n1)) by {
            assert forall|i: int| 0 <= i < n1 - n0 implies clusters@.skip(n0)[i] == middle.skip(
                n0,
            )[i] by {
                assert(clusters@.take(n1)[n0 + i] == clusters@[n0 + i]);
            }
        }
        assert(clusters@.skip(n0) == leaves(tree));
    }
}

/// Every pixel of every cluster is among all pixels.
pub proof fn all_pixels_contains<S>(cs: Seq<Cluster<S>>, c: int, k: int)
    requires
        0 <= c < cs.len(),
        0 <= k < cs[c].indices@.len(),
    ensures
        all_pixels(cs).contains(cs[c].indices@[k]),
    decreases cs.len(),
{
    let rest = cs.drop_last();
    let before = all_pixels(rest);
    if c == cs.len() - 1 {
        assert(all_pixels(cs)[before.len() + k] == cs[c].indices@[k]);
    } else {
        all_pixels_contains(rest, c, k);
        assert(rest[c] == cs[c]);
        let m = choose|m: int| 0 <= m < before.len() && before[m] == cs[c].indices@[k];
        assert(all_pixels(cs)[m] == before[m]);
    }
}

} // verus!
