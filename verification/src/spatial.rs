//! Clusters with their place in the image: how far they touch the border, and
//! which of them dominates.

use std::time::Duration;
use vstd::prelude::*;
use crate::algorithms::{at_most, Fit};
use crate::border::{border_mask, on_border};
use crate::flood::{flood, reached, seed_reached};
use crate::order::{key_order, stable_order};
use crate::quantile::{all_numbers, ordinals};
use crate::region::frame;
use crate::sampling::{batch_of, count_up, counted, draw_batch};
use crate::scalar::Scalar;
use crate::selection::{count_members, members_of, winner, winner_of};
use crate::text::{hex_text, rgb_to_hex};
use crate::timing::{no_time, now, since};

verus! {

/// A cluster of pixels, with what is known of it.
#[derive(Clone, Copy, Debug, PartialEq, Eq)]
pub struct Cluster4D {
    pub rgb: [u8; 3],
    pub proportion: Scalar,
    pub avg_complexity: Scalar,
    pub dominant_score: Scalar,
    pub lab_l: Scalar,
    pub lab_a: Scalar,
    pub lab_b: Scalar,
    pub chroma: Scalar,
    pub avg_x: Scalar,
    pub avg_y: Scalar,
    pub edge_ratio: Scalar,
    pub border_connected_ratio: Scalar,
    pub spread: Scalar,
    pub uniqueness: Scalar,
    pub centre_weight: Scalar,
    pub backgroundness: Scalar,
}

impl Cluster4D {
    /// The colour in hexadecimal.
    pub fn hex(&self) -> (s: String)
        ensures
            s@ == hex_text(self.rgb, false),
    {
        rgb_to_hex(self.rgb)
    }
}

/// A cluster without pixels: black, all else zero.
pub open spec fn empty_cluster() -> Cluster4D {
    let z = Scalar { bits: 0 };
    Cluster4D {
        rgb: [0u8, 0u8, 0u8],
        proportion: z,
        avg_complexity: z,
        dominant_score: z,
        lab_l: z,
        lab_a: z,
        lab_b: z,
        chroma: z,
        avg_x: z,
        avg_y: z,
        edge_ratio: z,
        border_connected_ratio: z,
        spread: z,
        uniqueness: z,
        centre_weight: z,
        backgroundness: z,
    }
}

/// A cluster without pixels: black, all else zero.
pub fn make_empty_cluster() -> (c: Cluster4D)
    ensures
        c == empty_cluster(),
{
    let z = Scalar::new(0);
    Cluster4D {
        rgb: [0, 0, 0],
        proportion: z,
        avg_complexity: z,
        dominant_score: z,
        lab_l: z,
        lab_a: z,
        lab_b: z,
        chroma: z,
        avg_x: z,
        avg_y: z,
        edge_ratio: z,
        border_connected_ratio: z,
        spread: z,
        uniqueness: z,
        centre_weight: z,
        backgroundness: z,
    }
}

/// The clusters, the one that dominates, and the time that the clustering took.
#[derive(Clone, Debug)]
pub struct ClusterResult4D {
    pub clusters: Vec<Cluster4D>,
    pub dominant: Cluster4D,
    pub duration: Duration,
}

/// The lightness of clusters.
pub open spec fn cluster_lightness(clusters: Seq<Cluster4D>) -> Seq<Scalar> {
    Seq::new(clusters.len(), |i: int| clusters[i].lab_l)
}

/// The clusters from dark to light, equally light ones in order.
pub open spec fn dark_to_light(clusters: Seq<Cluster4D>) -> Seq<Cluster4D> {
    let p = key_order(ordinals(cluster_lightness(clusters)));
    Seq::new(p.len(), |i: int| clusters[p[i] as int])
}

/// Lightness ascends.
pub open spec fn ascending(clusters: Seq<Cluster4D>) -> bool {
    forall|i: int, j: int|
        #![trigger clusters[i], clusters[j]]
        0 <= i <= j < clusters.len() ==> clusters[i].lab_l.le(clusters[j].lab_l)
}

/// Sorts clusters from dark to light.
pub fn sort_by_lightness(clusters: &mut Vec<Cluster4D>)
    requires
        all_numbers(cluster_lightness(old(clusters)@)),
    ensures
        final(clusters)@ == dark_to_light(old(clusters)@),
        final(clusters)@.len() == old(clusters)@.len(),
        ascending(final(clusters)@),
{
    let ghost start = clusters@;
    let mut keys: Vec<u64> = Vec::new();
    let mut i: usize = 0;
    while i < clusters.len()
        invariant
            i <= clusters@.len(),
            clusters@ == start,
            all_numbers(cluster_lightness(start)),
            keys@.len() == i,
            forall|k: int|
                #![trigger keys@[k]]
                0 <= k < i ==> keys@[k] == ordinals(cluster_lightness(start))[k],
        decreases clusters@.len() - i,
    {
        assert(!cluster_lightness(start)[i as int].is_nan());
        keys.push(clusters[i].lab_l.sort_key());
        i += 1;
    }
    assert(keys@ =~= ordinals(cluster_lightness(start)));
    let p = stable_order(keys.as_slice());
    let mut out: Vec<Cluster4D> = Vec::new();
    let mut i: usize = 0;
    while i < p.len()
        invariant
            i <= p@.len(),
            clusters@ == start,
            p@.len() == start.len(),
            forall|k: int| #![trigger p@[k]] 0 <= k < p@.len() ==> p@[k] < start.len(),
            out@.len() == i,
            forall|k: int| #![trigger out@[k]] 0 <= k < i ==> out@[k] == start[p@[k] as int],
        decreases p@.len() - i,
    {
        out.push(clusters[p[i]]);
        i += 1;
    }
    assert(out@ =~= dark_to_light(start));
    proof {
        assert forall|i: int, j: int|
            #![trigger out@[i], out@[j]]
            0 <= i <= j < out@.len() implies out@[i].lab_l.le(out@[j].lab_l) by {
            assert(out@[i] == start[p@[i] as int]);
            assert(out@[j] == start[p@[j] as int]);
            assert(!cluster_lightness(start)[p@[i] as int].is_nan());
            assert(!cluster_lightness(start)[p@[j] as int].is_nan());
            if i < j {
                assert(crate::order::precedes(keys@, p@[i] as int, p@[j] as int));
            }
        }
    }
    *clusters = out;
}

/// Two pixels are in the same cluster.
pub open spec fn same_cluster(assign: Seq<usize>) -> spec_fn(int, int) -> bool {
    |i: int, j: int| assign[i] == assign[j]
}

/// The outermost pixels of the image.
pub open spec fn rim(w: u32, h: u32, n: int) -> Seq<bool> {
    Seq::new(n as nat, |i: int| on_border(w, h, 1, i))
}

/// Pixel `i` is connected to the rim within its cluster.
pub open spec fn touches_rim(assign: Seq<usize>, w: u32, h: u32, i: int) -> bool {
    reached(rim(w, h, assign.len() as int), same_cluster(assign), w as int, i)
}

/// Number of pixels below `k` of cluster `c` on the rim.
pub open spec fn rim_count(assign: Seq<usize>, w: u32, h: u32, c: int, k: int) -> nat
    decreases k,
{
    if k <= 0 {
        0
    } else {
        rim_count(assign, w, h, c, k - 1) + if assign[k - 1] == c && on_border(w, h, 1, k - 1) {
            1nat
        } else {
            0nat
        }
    }
}

/// Number of pixels below `k` of cluster `c` that are connected to the rim within
/// the cluster.
pub open spec fn connected_count(assign: Seq<usize>, w: u32, h: u32, c: int, k: int) -> nat
    decreases k,
{
    if k <= 0 {
        0
    } else {
        connected_count(assign, w, h, c, k - 1) + if assign[k - 1] == c && touches_rim(
            assign,
            w,
            h,
            k - 1,
        ) {
            1nat
        } else {
            0nat
        }
    }
}

/// Of a cluster's pixels, those on the rim are among those connected to it, and
/// these among all.
pub proof fn rim_within_connected(assign: Seq<usize>, w: u32, h: u32, c: int, k: int)
    requires
        0 <= k <= assign.len(),
    ensures
        rim_count(assign, w, h, c, k) <= connected_count(assign, w, h, c, k),
        connected_count(assign, w, h, c, k) <= members_of(assign, c, k),
        members_of(assign, c, k) <= k,
    decreases k,
{
    if k > 0 {
        rim_within_connected(assign, w, h, c, k - 1);
        if on_border(w, h, 1, k - 1) {
            seed_reached(
                rim(w, h, assign.len() as int),
                same_cluster(assign),
                w as int,
                k - 1,
            );
        }
    }
}

/// A pixel is connected to the rim exactly through its own cluster: rim pixels
/// are, and so is a neighbour of the same cluster.
pub proof fn rim_connection_spreads(assign: Seq<usize>, w: u32, h: u32, i: int, j: int)
    requires
        frame(w, h, assign.len() as int),
        0 <= i < assign.len(),
        0 <= j < assign.len(),
    ensures
        ({
            let x = i % (w as int);
            let y = i / (w as int);
            x == 0 || y == 0 || x == w - 1 || y == h - 1
        }) ==> touches_rim(assign, w, h, i),
        touches_rim(assign, w, h, i) && assign[i] == assign[j] && ((j == i - 1 && i % (w as int)
            > 0) || (j == i + 1 && i % (w as int) + 1 < w) || j == i - w || j == i + w)
            ==> touches_rim(assign, w, h, j),
{
    let n = assign.len() as int;
    let seeds = rim(w, h, n);
    let gate = same_cluster(assign);
    crate::region::pixel_in_frame(w, h, n, i);
    if seeds[i] {
        seed_reached(seeds, gate, w as int, i);
    }
    if touches_rim(assign, w, h, i) && crate::flood::passes(gate, w as int, n, i, j) {
        crate::flood::reached_spreads(seeds, gate, w as int, i, j);
    }
}

/// A pixel is connected to the rim no other way: a set of pixels that holds the
/// rim, and with every pixel its neighbours of the same cluster, holds all pixels
/// that are connected to it.
pub proof fn rim_connection_needs_rim(assign: Seq<usize>, w: u32, h: u32, set: Seq<bool>, i: int)
    requires
        frame(w, h, assign.len() as int),
        set.len() == assign.len(),
        forall|k: int|
            #![trigger set[k]]
            0 <= k < set.len() && (k % (w as int) == 0 || k / (w as int) == 0 || k % (w as int) == w
                - 1 || k / (w as int) == h - 1) ==> set[k],
        forall|k: int, m: int|
            #![trigger set[k], set[m]]
            0 <= k < set.len() && 0 <= m < set.len() && set[k] && assign[k] == assign[m] && ((m == k
                - 1 && k % (w as int) > 0) || (m == k + 1 && k % (w as int) + 1 < w) || m == k - w
                || m == k + w) ==> set[m],
        0 <= i < assign.len(),
        touches_rim(assign, w, h, i),
    ensures
        set[i],
{
    let n = assign.len() as int;
    let seeds = rim(w, h, n);
    let gate = same_cluster(assign);
    assert forall|k: int| #![trigger seeds[k]] 0 <= k < seeds.len() && seeds[k] implies set[k] by {
        crate::region::pixel_in_frame(w, h, n, k);
        assert(set[k] == set[k]);
    }
    assert forall|k: int, m: int| #[trigger]
        crate::flood::passes(gate, w as int, n, k, m) && set[k] implies set[m] by {
        assert(set[m] == set[m]);
    }
    crate::flood::flood_is_least(seeds, gate, w as int, set, i);
}

/// Counts, for each cluster, the pixels that are connected to the rim of the image
/// within the cluster.
pub fn compute_border_connected(assign: &Vec<usize>, w: u32, h: u32, k: usize) -> (counts: Vec<usize>)
    requires
        frame(w, h, assign@.len() as int),
        forall|i: int| #![trigger assign@[i]] 0 <= i < assign@.len() ==> assign@[i] < k,
    ensures
        counts@.len() == k,
        forall|c: int|
            #![trigger counts@[c]]
            0 <= c < k ==> counts@[c] == connected_count(assign@, w, h, c, assign@.len() as int),
{
    let n = assign.len();
    let seeds = border_mask(w, h, 1);
    let ghost gate = same_cluster(assign@);
    let open = |i: usize, j: usize| -> (r: bool)
        requires
            i < assign@.len(),
            j < assign@.len(),
        ensures
            r == (assign@[i as int] == assign@[j as int]),
        { assign[i] == assign[j] };
    let mask = flood(seeds.as_slice(), w, h, &open, Ghost(gate));
    assert(seeds@ =~= rim(w, h, n as int));
    let mut counts: Vec<usize> = Vec::new();
    let mut c: usize = 0;
    while c < k
        invariant
            c <= k,
            counts@.len() == c,
            forall|q: int| #![trigger counts@[q]] 0 <= q < c ==> counts@[q] == 0,
        decreases k - c,
    {
        counts.push(0);
        c += 1;
    }
    let mut i: usize = 0;
    while i < n
        invariant
            i <= n,
            n == assign@.len(),
            mask@.len() == n,
            forall|i: int| #![trigger assign@[i]] 0 <= i < assign@.len() ==> assign@[i] < k,
            forall|i: int|
                #![trigger mask@[i]]
                0 <= i < mask@.len() ==> (mask@[i] <==> touches_rim(assign@, w, h, i)),
            counts@.len() == k,
            forall|q: int|
                #![trigger counts@[q]]
                0 <= q < k ==> counts@[q] == connected_count(assign@, w, h, q, i as int),
        decreases n - i,
    {
        let ghost before = counts@;
        let own = assign[i];
        assert(assign@[i as int] < k);
        if mask[i] {
            proof {
                rim_within_connected(assign@, w, h, own as int, i as int);
                assert(before[own as int] == connected_count(assign@, w, h, own as int, i as int));
            }
            counts.set(own, counts[own] + 1);
        }
        assert(mask@[i as int] <==> touches_rim(assign@, w, h, i as int));
        assert forall|q: int| #![trigger counts@[q]] 0 <= q < k implies counts@[q]
            == connected_count(assign@, w, h, q, i + 1) by {
            assert(before[q] == connected_count(assign@, w, h, q, i as int));
        }
        i += 1;
    }
    counts
}

/// Sums over the pixels of a cluster.
#[derive(Clone, Copy, Debug)]
pub struct ClusterSums<A> {
    pub count: usize,
    pub edge_count: usize,
    pub border_connected: usize,
    pub sums: A,
}

/// `acc` sums up the pixels below `k` of cluster `c`, in order, from `start`.
pub open spec fn gathered<A, T: Fn(A, usize) -> A>(
    tally: T,
    start: A,
    assign: Seq<usize>,
    c: int,
    k: int,
    acc: A,
) -> bool
    decreases k,
{
    if k <= 0 {
        acc == start
    } else if assign[k - 1] == c {
        exists|before: A|
            {
                &&& #[trigger] call_ensures(tally, (before, (k - 1) as usize), acc)
                &&& gathered(tally, start, assign, c, k - 1, before)
            }
    } else {
        gathered(tally, start, assign, c, k - 1, acc)
    }
}

/// The sums of cluster `c`.
pub open spec fn sums_of<A, T: Fn(A, usize) -> A>(
    tally: T,
    start: A,
    assign: Seq<usize>,
    w: u32,
    h: u32,
    c: int,
    s: ClusterSums<A>,
) -> bool {
    let n = assign.len() as int;
    &&& s.count == members_of(assign, c, n)
    &&& s.edge_count == rim_count(assign, w, h, c, n)
    &&& s.border_connected == connected_count(assign, w, h, c, n)
    &&& gathered(tally, start, assign, c, n, s.sums)
}

/// `sums` holds the sums of all clusters.
pub open spec fn all_sums<A, T: Fn(A, usize) -> A>(
    tally: T,
    start: A,
    assign: Seq<usize>,
    w: u32,
    h: u32,
    sums: Seq<ClusterSums<A>>,
) -> bool {
    forall|c: int|
        #![trigger sums[c]]
        0 <= c < sums.len() ==> sums_of(tally, start, assign, w, h, c, sums[c])
}

/// The sums of cluster `c` over the pixels below `k`.
spec fn partial_sums<A, T: Fn(A, usize) -> A>(
    tally: T,
    start: A,
    assign: Seq<usize>,
    w: u32,
    h: u32,
    c: int,
    k: int,
    s: ClusterSums<A>,
) -> bool {
    &&& s.count == members_of(assign, c, k)
    &&& s.edge_count == rim_count(assign, w, h, c, k)
    &&& s.border_connected == connected_count(assign, w, h, c, assign.len() as int)
    &&& gathered(tally, start, assign, c, k, s.sums)
}

/// Sums up the pixels of every cluster.
pub fn gather_sums<A: Copy, T: Fn(A, usize) -> A>(
    assign: &Vec<usize>,
    w: u32,
    h: u32,
    k: usize,
    start: A,
    tally: &T,
) -> (sums: Vec<ClusterSums<A>>)
    requires
        frame(w, h, assign@.len() as int),
        forall|i: int| #![trigger assign@[i]] 0 <= i < assign@.len() ==> assign@[i] < k,
        forall|a: A, i: usize| #[trigger] call_requires(*tally, (a, i)),
    ensures
        sums@.len() == k,
        all_sums(*tally, start, assign@, w, h, sums@),
{
    let n = assign.len();
    let edges = border_mask(w, h, 1);
    let connected = compute_border_connected(assign, w, h, k);
    let mut sums: Vec<ClusterSums<A>> = Vec::new();
    let mut c: usize = 0;
    while c < k
        invariant
            c <= k,
            connected@.len() == k,
            forall|c: int|
                #![trigger connected@[c]]
                0 <= c < k ==> connected@[c] == connected_count(
                    assign@,
                    w,
                    h,
                    c,
                    assign@.len() as int,
                ),
            sums@.len() == c,
            forall|q: int|
                #![trigger sums@[q]]
                0 <= q < c ==> partial_sums(*tally, start, assign@, w, h, q, 0, sums@[q]),
        decreases k - c,
    {
        sums.push(
            ClusterSums { count: 0, edge_count: 0, border_connected: connected[c], sums: start },
        );
        c += 1;
    }
    let mut i: usize = 0;
    while i < n
        invariant
            i <= n,
            n == assign@.len(),
            edges@.len() == n,
            forall|i: int|
                #![trigger edges@[i]]
                0 <= i < edges@.len() ==> edges@[i] == on_border(w, h, 1, i),
            forall|i: int| #![trigger assign@[i]] 0 <= i < assign@.len() ==> assign@[i] < k,
            forall|a: A, i: usize| #[trigger] call_requires(*tally, (a, i)),
            sums@.len() == k,
            forall|q: int|
                #![trigger sums@[q]]
                0 <= q < k ==> partial_sums(*tally, start, assign@, w, h, q, i as int, sums@[q]),
        decreases n - i,
    {
        let ghost before = sums@;
        let own = assign[i];
        assert(assign@[i as int] < k);
        let acc = sums[own];
        proof {
            rim_within_connected(assign@, w, h, own as int, i as int);
            assert(partial_sums(
                *tally,
                start,
                assign@,
                w,
                h,
                own as int,
                i as int,
                before[own as int],
            ));
        }
        assert(call_requires(*tally, (acc.sums, i)));
        let next = tally(acc.sums, i);
        let extra: usize = if edges[i] {
            1
        } else {
            0
        };
        sums.set(
            own,
            ClusterSums {
                count: acc.count + 1,
                edge_count: acc.edge_count + extra,
                border_connected: acc.border_connected,
                sums: next,
            },
        );
        assert(call_ensures(*tally, (acc.sums, ((i + 1) - 1) as usize), next));
        assert(gathered(*tally, start, assign@, own as int, i + 1, next));
        assert forall|q: int| #![trigger sums@[q]] 0 <= q < k implies partial_sums(
            *tally,
            start,
            assign@,
            w,
            h,
            q,
            i + 1,
            sums@[q],
        ) by {
            assert(partial_sums(*tally, start, assign@, w, h, q, i as int, before[q]));
        }
        i += 1;
    }
    proof {
        assert forall|c: int| #![trigger sums@[c]] 0 <= c < sums@.len() implies sums_of(
            *tally,
            start,
            assign@,
            w,
            h,
            c,
            sums@[c],
        ) by {
            assert(partial_sums(*tally, start, assign@, w, h, c, n as int, sums@[c]));
        }
    }
    sums
}

/// Bit pattern of 5, the chroma below which a colour is nearly neutral.
pub const NEUTRAL_CHROMA_BITS: u64 = 0x4014_0000_0000_0000;

/// Bit pattern of 85, the lightness above which a colour is nearly white.
pub const WHITE_LIGHTNESS_BITS: u64 = 0x4055_4000_0000_0000;

/// Bit pattern of 0.4, the share above which a cluster is connected to the rim.
pub const RIM_SHARE_BITS: u64 = 0x3FD9_9999_9999_999A;

/// The cluster looks like a white background: neutral, light, and connected to the
/// rim.
pub open spec fn is_white_background(c: Cluster4D) -> bool {
    &&& c.chroma.lt(Scalar { bits: NEUTRAL_CHROMA_BITS })
    &&& (Scalar { bits: WHITE_LIGHTNESS_BITS }).lt(c.lab_l)
    &&& (Scalar { bits: RIM_SHARE_BITS }).lt(c.border_connected_ratio)
}

fn white_background(c: &Cluster4D) -> (r: bool)
    ensures
        r == is_white_background(*c),
{
    let neutral = Scalar::new(NEUTRAL_CHROMA_BITS);
    let light = Scalar::new(WHITE_LIGHTNESS_BITS);
    let share = Scalar::new(RIM_SHARE_BITS);
    c.chroma.less(&neutral) && light.less(&c.lab_l) && share.less(&c.border_connected_ratio)
}

/// The cluster with its place in the image: what `locate` makes of a cluster with
/// pixels; one without is kept.
pub open spec fn located<A, L: Fn(&Cluster4D, &ClusterSums<A>) -> Cluster4D>(
    locate: L,
    draft: Cluster4D,
    s: ClusterSums<A>,
    out: Cluster4D,
) -> bool {
    if s.count == 0 {
        out == draft
    } else {
        call_ensures(locate, (&draft, &s), out)
    }
}

/// The cluster with another score.
pub open spec fn with_score(c: Cluster4D, score: Scalar) -> Cluster4D {
    Cluster4D { dominant_score: score, ..c }
}

/// `out` is the rated cluster, its score reduced if it looks like a white
/// background.
pub open spec fn gated<D: Fn(Scalar) -> Scalar>(damp: D, rated: Cluster4D, out: Cluster4D) -> bool {
    if is_white_background(rated) {
        call_ensures(damp, (rated.dominant_score,), out.dominant_score) && out == with_score(
            rated,
            out.dominant_score,
        )
    } else {
        out == rated
    }
}

/// Only what is nearly white is damped: a cluster keeps its rating where its
/// lightness is at most 85, where its chroma is at least 5, and where at most 0.4
/// of its pixels are connected to the rim.
pub proof fn only_white_rims_are_damped<D: Fn(Scalar) -> Scalar>(
    damp: D,
    rated: Cluster4D,
    out: Cluster4D,
)
    requires
        gated(damp, rated, out),
        rated.lab_l.le(Scalar { bits: 0x4055_4000_0000_0000 }) || (Scalar {
            bits: 0x4014_0000_0000_0000,
        }).le(rated.chroma) || rated.border_connected_ratio.le(
            Scalar { bits: 0x3FD9_9999_9999_999A },
        ),
    ensures
        out == rated,
{
}

/// A cluster with a lightness above 85, a chroma below 5 and more than 0.4 of its
/// pixels connected to the rim has its score damped, and nothing else of it
/// changes.
pub proof fn white_rims_are_damped<D: Fn(Scalar) -> Scalar>(
    damp: D,
    rated: Cluster4D,
    out: Cluster4D,
)
    requires
        gated(damp, rated, out),
        (Scalar { bits: 0x4055_4000_0000_0000 }).lt(rated.lab_l),
        rated.chroma.lt(Scalar { bits: 0x4014_0000_0000_0000 }),
        (Scalar { bits: 0x3FD9_9999_9999_999A }).lt(rated.border_connected_ratio),
    ensures
        call_ensures(damp, (rated.dominant_score,), out.dominant_score),
        out == (Cluster4D { dominant_score: out.dominant_score, ..rated }),
{
}

/// `out` is cluster `c` after scoring: `rate` gives it its score among all
/// clusters; one without pixels is kept.
pub open spec fn scored_among<
    R: Fn(usize, &Vec<Cluster4D>) -> Cluster4D,
    D: Fn(Scalar) -> Scalar,
>(rate: R, damp: D, all: Vec<Cluster4D>, c: usize, count: int, out: Cluster4D) -> bool {
    if count == 0 {
        out == all@[c as int]
    } else {
        exists|rated: Cluster4D| #[trigger]
            call_ensures(rate, (c, &all), rated) && gated(damp, rated, out)
    }
}

/// All clusters are located.
pub open spec fn all_located<A, L: Fn(&Cluster4D, &ClusterSums<A>) -> Cluster4D>(
    locate: L,
    drafts: Seq<Cluster4D>,
    sums: Seq<ClusterSums<A>>,
    out: Seq<Cluster4D>,
) -> bool {
    &&& out.len() == drafts.len()
    &&& forall|c: int|
        #![trigger out[c]]
        0 <= c < out.len() ==> located(locate, drafts[c], sums[c], out[c])
}

/// All clusters are scored.
pub open spec fn all_rated<A, R: Fn(usize, &Vec<Cluster4D>) -> Cluster4D, D: Fn(Scalar) -> Scalar>(
    rate: R,
    damp: D,
    all: Vec<Cluster4D>,
    sums: Seq<ClusterSums<A>>,
    out: Seq<Cluster4D>,
) -> bool {
    &&& out.len() == all@.len()
    &&& forall|c: int|
        #![trigger out[c]]
        0 <= c < out.len() ==> scored_among(
            rate,
            damp,
            all,
            c as usize,
            sums[c].count as int,
            out[c],
        )
}

/// Locates and scores the clusters.
pub fn score_clusters<
    A,
    L: Fn(&Cluster4D, &ClusterSums<A>) -> Cluster4D,
    R: Fn(usize, &Vec<Cluster4D>) -> Cluster4D,
    D: Fn(Scalar) -> Scalar,
>(
    drafts: &Vec<Cluster4D>,
    sums: &Vec<ClusterSums<A>>,
    locate: &L,
    rate: &R,
    damp: &D,
) -> (out: Vec<Cluster4D>)
    requires
        drafts@.len() == sums@.len(),
        forall|c: &Cluster4D, s: &ClusterSums<A>| #[trigger] call_requires(*locate, (c, s)),
        forall|i: usize, all: &Vec<Cluster4D>|
            i < all@.len() ==> #[trigger] call_requires(*rate, (i, all)),
        forall|v: Scalar| #[trigger] call_requires(*damp, (v,)),
    ensures
        out@.len() == drafts@.len(),
        exists|all: Vec<Cluster4D>|
            all_located(*locate, drafts@, sums@, all@) && #[trigger] all_rated(
                *rate,
                *damp,
                all,
                sums@,
                out@,
            ),
{
    let k = drafts.len();
    let mut all: Vec<Cluster4D> = Vec::new();
    let mut c: usize = 0;
    while c < k
        invariant
            c <= k,
            k == drafts@.len(),
            k == sums@.len(),
            forall|c: &Cluster4D, s: &ClusterSums<A>| #[trigger] call_requires(*locate, (c, s)),
            all@.len() == c,
            forall|q: int|
                #![trigger all@[q]]
                0 <= q < c ==> located(*locate, drafts@[q], sums@[q], all@[q]),
        decreases k - c,
    {
        let v = if sums[c].count == 0 {
            drafts[c]
        } else {
            assert(call_requires(*locate, (&drafts@[c as int], &sums@[c as int])));
            locate(&drafts[c], &sums[c])
        };
        assert(located(*locate, drafts@[c as int], sums@[c as int], v));
        all.push(v);
        c += 1;
    }
    assert(all_located(*locate, drafts@, sums@, all@));
    let mut out: Vec<Cluster4D> = Vec::new();
    let mut c: usize = 0;
    while c < k
        invariant
            c <= k,
            k == all@.len(),
            k == sums@.len(),
            forall|i: usize, all: &Vec<Cluster4D>|
                i < all@.len() ==> #[trigger] call_requires(*rate, (i, all)),
            forall|v: Scalar| #[trigger] call_requires(*damp, (v,)),
            out@.len() == c,
            forall|q: int|
                #![trigger out@[q]]
                0 <= q < c ==> scored_among(
                    *rate,
                    *damp,
                    all,
                    q as usize,
                    sums@[q].count as int,
                    out@[q],
                ),
        decreases k - c,
    {
        let v = if sums[c].count == 0 {
            all[c]
        } else {
            assert(call_requires(*rate, (c, &all)));
            let rated = rate(c, &all);
            let v = if white_background(&rated) {
                let mut dimmed = rated;
                assert(call_requires(*damp, (rated.dominant_score,)));
                dimmed.dominant_score = damp(rated.dominant_score);
                dimmed
            } else {
                rated
            };
            assert(call_ensures(*rate, (c, &all), rated));
            assert(gated(*damp, rated, v));
            v
        };
        assert(scored_among(*rate, *damp, all, c, sums@[c as int].count as int, v));
        out.push(v);
        c += 1;
    }
    assert(all_rated(*rate, *damp, all, sums@, out@));
    out
}

/// A cluster with pixels that comes out with a lightness of at most 85 is as it was
/// rated.
pub proof fn dark_clusters_keep_their_rating<
    A,
    R: Fn(usize, &Vec<Cluster4D>) -> Cluster4D,
    D: Fn(Scalar) -> Scalar,
>(
    rate: R,
    damp: D,
    all: Vec<Cluster4D>,
    sums: Seq<ClusterSums<A>>,
    out: Seq<Cluster4D>,
    c: usize,
)
    requires
        all_rated(rate, damp, all, sums, out),
        c < out.len(),
        sums[c as int].count > 0,
        out[c as int].lab_l.le(Scalar { bits: 0x4055_4000_0000_0000 }) || (Scalar {
            bits: 0x4014_0000_0000_0000,
        }).le(out[c as int].chroma) || out[c as int].border_connected_ratio.le(
            Scalar { bits: 0x3FD9_9999_9999_999A },
        ),
    ensures
        call_ensures(rate, (c, &all), out[c as int]),
{
    assert(scored_among(
        rate,
        damp,
        all,
        c,
        sums[c as int].count as int,
        out[c as int],
    ));
    let rated = choose|rated: Cluster4D| #[trigger]
        call_ensures(rate, (c, &all), rated) && gated(damp, rated, out[c as int]);
    only_white_rims_are_damped(damp, rated, out[c as int]);
}

/// Sorting keeps every cluster.
pub proof fn sorting_keeps_clusters(clusters: Seq<Cluster4D>, i: int)
    requires
        clusters.len() <= usize::MAX,
        all_numbers(cluster_lightness(clusters)),
        0 <= i < clusters.len(),
    ensures
        dark_to_light(clusters).len() == clusters.len(),
        dark_to_light(clusters).contains(clusters[i]),
        clusters.contains(dark_to_light(clusters)[i]),
        i > 0 ==> dark_to_light(clusters)[i - 1].lab_l.le(dark_to_light(clusters)[i].lab_l),
{
    let keys = ordinals(cluster_lightness(clusters));
    crate::order::key_order_exists(keys);
    let p = key_order(keys);
    crate::order::permutation_reaches(p, clusters.len() as int, i);
    let j = choose|j: int| 0 <= j < p.len() && p[j] == i;
    assert(dark_to_light(clusters)[j] == clusters[i]);
    assert(dark_to_light(clusters)[i] == clusters[p[i] as int]);
    assert(!cluster_lightness(clusters)[p[i] as int].is_nan());
    if i > 0 {
        assert(crate::order::precedes(keys, p[i - 1] as int, p[i] as int));
        assert(!cluster_lightness(clusters)[p[i - 1] as int].is_nan());
    }
}

/// The sums of a cluster of one pixel are what that pixel adds to nothing.
pub proof fn single_pixels_are_gathered<A, T: Fn(A, usize) -> A>(
    tally: T,
    start: A,
    assign: Seq<usize>,
    c: int,
    k: int,
    acc: A,
    i: int,
)
    requires
        gathered(tally, start, assign, c, k, acc),
        0 <= i < k <= assign.len() <= usize::MAX,
        forall|j: int| #![trigger assign[j]] 0 <= j < k ==> (assign[j] == c <==> j == i),
    ensures
        call_ensures(tally, (start, i as usize), acc),
    decreases k,
{
    assert(assign[k - 1] == assign[k - 1]);
    if i < k - 1 {
        single_pixels_are_gathered(tally, start, assign, c, k - 1, acc, i);
    } else {
        let before = choose|before: A|
            {
                &&& #[trigger] call_ensures(tally, (before, (k - 1) as usize), acc)
                &&& gathered(tally, start, assign, c, k - 1, before)
            };
        nothing_is_gathered(tally, start, assign, c, k - 1, before);
    }
}

proof fn nothing_is_gathered<A, T: Fn(A, usize) -> A>(
    tally: T,
    start: A,
    assign: Seq<usize>,
    c: int,
    k: int,
    acc: A,
)
    requires
        gathered(tally, start, assign, c, k, acc),
        0 <= k <= assign.len(),
        forall|j: int| #![trigger assign[j]] 0 <= j < k ==> assign[j] != c,
    ensures
        acc == start,
    decreases k,
{
    if k > 0 {
        assert(assign[k - 1] == assign[k - 1]);
        nothing_is_gathered(tally, start, assign, c, k - 1, acc);
    }
}

/// A model is trained on all pixels, or on a batch of them: the first 2048 in
/// shuffled order, or all where they are fewer.
pub proof fn training_takes_all_or_a_batch(n: int, seed: u64, i: int)
    requires
        0 <= i < n <= usize::MAX,
        crate::sampling::shuffled_by(counted(n), seed).len() == n,
    ensures
        training_items(n, seed, false).len() == n,
        training_items(n, seed, false)[i] == i,
        training_items(n, seed, true).len() == if n <= 2048 {
            n
        } else {
            2048
        },
        i < 2048 ==> training_items(n, seed, true)[i] == crate::sampling::shuffled_by(
            counted(n),
            seed,
        )[i],
{
    if i < 2048 {
        crate::sampling::batches_are_prefixes(n, seed, i);
    } else {
        crate::sampling::batches_are_prefixes(n, seed, 0);
    }
}

/// Pixels on the rim are counted exactly: all of a cluster's pixels where all lie
/// on the outermost rows and columns, none where none does.
pub proof fn rim_pixels_are_counted(assign: Seq<usize>, w: u32, h: u32, c: int, k: int)
    requires
        0 <= k <= assign.len(),
        frame(w, h, assign.len() as int),
    ensures
        (forall|i: int|
            #![trigger assign[i]]
            0 <= i < k && assign[i] == c ==> i % (w as int) == 0 || i / (w as int) == 0 || i % (
            w as int) == w - 1 || i / (w as int) == h - 1) ==> rim_count(assign, w, h, c, k)
            == members_of(assign, c, k),
        (forall|i: int|
            #![trigger assign[i]]
            0 <= i < k && assign[i] == c ==> i % (w as int) != 0 && i / (w as int) != 0 && i % (
            w as int) != w - 1 && i / (w as int) != h - 1) ==> rim_count(assign, w, h, c, k) == 0,
    decreases k,
{
    if k > 0 {
        rim_pixels_are_counted(assign, w, h, c, k - 1);
        crate::region::pixel_in_frame(w, h, assign.len() as int, k - 1);
        assert(assign[k - 1] == assign[k - 1]);
    }
}

/// `drafts` holds what `build` makes of each centre and its cluster's sums.
pub open spec fn drafted<C, A, B: Fn(&C, &ClusterSums<A>) -> Cluster4D>(
    build: B,
    centers: Seq<C>,
    sums: Seq<ClusterSums<A>>,
    drafts: Seq<Cluster4D>,
) -> bool {
    &&& drafts.len() == centers.len()
    &&& forall|c: int|
        #![trigger drafts[c]]
        0 <= c < drafts.len() ==> call_ensures(build, (&centers[c], &sums[c]), drafts[c])
}

/// The scores of clusters.
pub open spec fn dominance(clusters: Seq<Cluster4D>) -> Seq<Scalar> {
    Seq::new(clusters.len(), |i: int| clusters[i].dominant_score)
}

/// The items that a model is trained on: all, or a batch.
pub open spec fn training_items(n: int, seed: u64, minibatch: bool) -> Seq<usize> {
    if minibatch {
        batch_of(n, seed)
    } else {
        counted(n)
    }
}

/// The intermediate results of a clustering.
pub ghost struct Clustering<C, A> {
    pub fit: Fit<C>,
    pub sums: Seq<ClusterSums<A>>,
    pub drafts: Seq<Cluster4D>,
    pub located: Vec<Cluster4D>,
    pub scored: Seq<Cluster4D>,
}

/// The result comes of the clusters by way of `st`: summed up, drafted, located
/// and scored; the highest score dominates, the last one among equals.
pub open spec fn clustered_by<
    C,
    A,
    T: Fn(A, usize) -> A,
    B: Fn(&C, &ClusterSums<A>) -> Cluster4D,
    L: Fn(&Cluster4D, &ClusterSums<A>) -> Cluster4D,
    R: Fn(usize, &Vec<Cluster4D>) -> Cluster4D,
    D: Fn(Scalar) -> Scalar,
>(
    st: Clustering<C, A>,
    w: u32,
    h: u32,
    start: A,
    tally: T,
    build: B,
    locate: L,
    rate: R,
    damp: D,
    r: ClusterResult4D,
) -> bool {
    &&& st.sums.len() == st.fit.centers@.len()
    &&& all_sums(tally, start, st.fit.assignments@, w, h, st.sums)
    &&& drafted(build, st.fit.centers@, st.sums, st.drafts)
    &&& all_located(locate, st.drafts, st.sums, st.located@)
    &&& all_rated(rate, damp, st.located, st.sums, st.scored)
    &&& r.dominant == st.scored[winner_of(dominance(st.scored), st.scored.len() as int)]
    &&& r.clusters@ == dark_to_light(st.scored)
}

/// Where scores and lightness are numbers, no cluster scores more than the one
/// that dominates, which is one of the clusters.
pub proof fn dominant_scores_most<
    C,
    A,
    T: Fn(A, usize) -> A,
    B: Fn(&C, &ClusterSums<A>) -> Cluster4D,
    L: Fn(&Cluster4D, &ClusterSums<A>) -> Cluster4D,
    R: Fn(usize, &Vec<Cluster4D>) -> Cluster4D,
    D: Fn(Scalar) -> Scalar,
>(
    st: Clustering<C, A>,
    w: u32,
    h: u32,
    start: A,
    tally: T,
    build: B,
    locate: L,
    rate: R,
    damp: D,
    r: ClusterResult4D,
    i: int,
)
    requires
        clustered_by(st, w, h, start, tally, build, locate, rate, damp, r),
        st.scored.len() <= usize::MAX,
        forall|c: int|
            #![trigger st.scored[c]]
            0 <= c < st.scored.len() ==> !st.scored[c].dominant_score.is_nan()
                && !st.scored[c].lab_l.is_nan(),
        0 <= i < r.clusters@.len(),
    ensures
        r.clusters@.len() == st.scored.len(),
        r.clusters@[i].dominant_score.le(r.dominant.dominant_score),
        r.clusters@.contains(r.dominant),
{
    let scores = dominance(st.scored);
    let n = st.scored.len() as int;
    assert forall|m: int| #![trigger scores[m]] 0 <= m < n implies !scores[m].is_nan() by {
        assert(!st.scored[m].dominant_score.is_nan());
    }
    let light = cluster_lightness(st.scored);
    assert forall|m: int| #![trigger light[m]] 0 <= m < light.len() implies !light[m].is_nan() by {
        assert(!st.scored[m].lab_l.is_nan());
    }
    crate::order::key_order_exists(ordinals(light));
    assert(r.clusters@.len() == n);
    sorting_keeps_clusters(st.scored, i);
    let c = choose|c: int| 0 <= c < n && st.scored[c] == r.clusters@[i];
    crate::selection::winner_is_greatest(scores, n, c);
    let top = winner_of(scores, n);
    sorting_keeps_clusters(st.scored, top);
    assert(scores[c].le(scores[top]));
}

/// The result comes of the fitted clusters.
pub open spec fn clusters_of<
    C,
    A,
    T: Fn(A, usize) -> A,
    B: Fn(&C, &ClusterSums<A>) -> Cluster4D,
    L: Fn(&Cluster4D, &ClusterSums<A>) -> Cluster4D,
    R: Fn(usize, &Vec<Cluster4D>) -> Cluster4D,
    D: Fn(Scalar) -> Scalar,
>(
    fit: Fit<C>,
    w: u32,
    h: u32,
    start: A,
    tally: T,
    build: B,
    locate: L,
    rate: R,
    damp: D,
    r: ClusterResult4D,
) -> bool {
    exists|st: Clustering<C, A>|
        st.fit == fit && #[trigger] clustered_by(
            st,
            w,
            h,
            start,
            tally,
            build,
            locate,
            rate,
            damp,
            r,
        )
}

/// `cluster` takes items to train on and a number of clusters, and where it
/// succeeds puts every one of `n` pixels into a cluster.
pub open spec fn fits_all<C, E, F: Fn(&Vec<usize>, usize) -> Result<Fit<C>, E>>(
    cluster: F,
    n: int,
) -> bool {
    &&& forall|t: &Vec<usize>, k: usize| #[trigger] call_requires(cluster, (t, k))
    &&& forall|t: &Vec<usize>, k: usize, r: Result<Fit<C>, E>| #[trigger]
        call_ensures(cluster, (t, k), r) && r is Ok ==> r->Ok_0.wf(n, k as int)
}

/// The closures take any clusters, and no lightness comes out that is not a
/// number.
pub open spec fn scores_all<
    C,
    A,
    T: Fn(A, usize) -> A,
    B: Fn(&C, &ClusterSums<A>) -> Cluster4D,
    L: Fn(&Cluster4D, &ClusterSums<A>) -> Cluster4D,
    R: Fn(usize, &Vec<Cluster4D>) -> Cluster4D,
    D: Fn(Scalar) -> Scalar,
>(tally: T, build: B, locate: L, rate: R, damp: D) -> bool {
    &&& forall|a: A, i: usize| #[trigger] call_requires(tally, (a, i))
    &&& forall|c: &C, s: &ClusterSums<A>| #[trigger] call_requires(build, (c, s))
    &&& forall|c: &C, s: &ClusterSums<A>, r: Cluster4D| #[trigger]
        call_ensures(build, (c, s), r) ==> !r.lab_l.is_nan()
    &&& forall|c: &Cluster4D, s: &ClusterSums<A>| #[trigger] call_requires(locate, (c, s))
    &&& forall|c: &Cluster4D, s: &ClusterSums<A>, r: Cluster4D| #[trigger]
        call_ensures(locate, (c, s), r) ==> r.lab_l == c.lab_l
    &&& forall|i: usize, all: &Vec<Cluster4D>|
        i < all@.len() ==> #[trigger] call_requires(rate, (i, all))
    &&& forall|i: usize, all: &Vec<Cluster4D>, r: Cluster4D| #[trigger]
        call_ensures(rate, (i, all), r) && i < all@.len() ==> r.lab_l == all@[i as int].lab_l
    &&& forall|v: Scalar| #[trigger] call_requires(damp, (v,))
}

/// Forms up to `k` clusters of the pixels of an image and finds the one that
/// dominates.
///
/// `cluster` trains on all pixels, or on a batch of them, and assigns every pixel;
/// `tally` sums up a cluster's pixels, `build` makes a cluster of its centre and
/// sums, `locate` adds its place in the image, `rate` its score, and `damp`
/// reduces the score of a white background.
pub fn cluster_pixels<
    C,
    E,
    A: Copy,
    F: Fn(&Vec<usize>, usize) -> Result<Fit<C>, E>,
    T: Fn(A, usize) -> A,
    B: Fn(&C, &ClusterSums<A>) -> Cluster4D,
    L: Fn(&Cluster4D, &ClusterSums<A>) -> Cluster4D,
    R: Fn(usize, &Vec<Cluster4D>) -> Cluster4D,
    D: Fn(Scalar) -> Scalar,
>(
    n: usize,
    k: usize,
    seed: u64,
    w: u32,
    h: u32,
    minibatch: bool,
    start: A,
    cluster: &F,
    tally: &T,
    build: &B,
    locate: &L,
    rate: &R,
    damp: &D,
) -> (r: Result<ClusterResult4D, E>)
    requires
        frame(w, h, n as int),
        fits_all(*cluster, n as int),
        scores_all(*tally, *build, *locate, *rate, *damp),
    ensures
        at_most(k as int, n as int) == 0 ==> r is Ok && r->Ok_0.clusters@.len() == 0
            && r->Ok_0.dominant == empty_cluster(),
        at_most(k as int, n as int) > 0 ==> exists|t: Vec<usize>, f: Result<Fit<C>, E>|
            {
                &&& t@ == training_items(n as int, seed, minibatch)
                &&& #[trigger] call_ensures(
                    *cluster,
                    (&t, at_most(k as int, n as int) as usize),
                    f,
                )
                &&& match f {
                    Err(e) => r == Err::<ClusterResult4D, E>(e),
                    Ok(fit) => r is Ok && clusters_of(
                        fit,
                        w,
                        h,
                        start,
                        *tally,
                        *build,
                        *locate,
                        *rate,
                        *damp,
                        r->Ok_0,
                    ),
                }
            },
        r is Ok ==> r->Ok_0.clusters@.len() == at_most(k as int, n as int),
        r is Ok ==> ascending(r->Ok_0.clusters@),
{
    let m: usize = if k <= n {
        k
    } else {
        n
    };
    if m == 0 {
        return Ok(
            ClusterResult4D {
                clusters: Vec::new(),
                dominant: make_empty_cluster(),
                duration: no_time(),
            },
        );
    }
    let begun = now();
    let items = if minibatch {
        draw_batch(n, seed)
    } else {
        count_up(n)
    };
    assert(m == at_most(k as int, n as int) as usize);
    assert(call_requires(*cluster, (&items, m)));
    let outcome = cluster(&items, m);
    assert(call_ensures(*cluster, (&items, at_most(k as int, n as int) as usize), outcome));
    match outcome {
        Err(e) => Err(e),
        Ok(fit) => {
            assert(fit.wf(n as int, m as int));
            let mut r = finish_clusters(&fit, w, h, start, tally, build, locate, rate, damp);
            let ghost before = r;
            r.duration = since(&begun);
            proof {
                let st = choose|st: Clustering<C, A>|
                    st.fit == fit && #[trigger] clustered_by(
                        st,
                        w,
                        h,
                        start,
                        *tally,
                        *build,
                        *locate,
                        *rate,
                        *damp,
                        before,
                    );
                assert(clustered_by(st, w, h, start, *tally, *build, *locate, *rate, *damp, r));
            }
            Ok(r)
        },
    }
}

/// Sums up, scores and sorts clusters.
pub fn finish_clusters<
    C,
    A: Copy,
    T: Fn(A, usize) -> A,
    B: Fn(&C, &ClusterSums<A>) -> Cluster4D,
    L: Fn(&Cluster4D, &ClusterSums<A>) -> Cluster4D,
    R: Fn(usize, &Vec<Cluster4D>) -> Cluster4D,
    D: Fn(Scalar) -> Scalar,
>(
    fit: &Fit<C>,
    w: u32,
    h: u32,
    start: A,
    tally: &T,
    build: &B,
    locate: &L,
    rate: &R,
    damp: &D,
) -> (r: ClusterResult4D)
    requires
        frame(w, h, fit.assignments@.len() as int),
        fit.wf(fit.assignments@.len() as int, fit.centers@.len() as int),
        fit.centers@.len() > 0,
        scores_all(*tally, *build, *locate, *rate, *damp),
    ensures
        clusters_of(*fit, w, h, start, *tally, *build, *locate, *rate, *damp, r),
        r.clusters@.len() == fit.centers@.len(),
        ascending(r.clusters@),
{
    let k = fit.centers.len();
    let sums = gather_sums(&fit.assignments, w, h, k, start, tally);
    let mut drafts: Vec<Cluster4D> = Vec::new();
    let mut c: usize = 0;
    while c < k
        invariant
            c <= k,
            k == fit.centers@.len(),
            k == sums@.len(),
            scores_all(*tally, *build, *locate, *rate, *damp),
            drafts@.len() == c,
            forall|q: int|
                #![trigger drafts@[q]]
                0 <= q < c ==> !drafts@[q].lab_l.is_nan() && call_ensures(
                    *build,
                    (&fit.centers@[q], &sums@[q]),
                    drafts@[q],
                ),
        decreases k - c,
    {
        assert(call_requires(*build, (&fit.centers@[c as int], &sums@[c as int])));
        let d = build(&fit.centers[c], &sums[c]);
        drafts.push(d);
        c += 1;
    }
    assert(drafted(*build, fit.centers@, sums@, drafts@));
    let mut clusters = score_clusters(&drafts, &sums, locate, rate, damp);
    let ghost scored = clusters@;
    let ghost all: Vec<Cluster4D> = choose|all: Vec<Cluster4D>|
        all_located(*locate, drafts@, sums@, all@) && #[trigger] all_rated(
            *rate,
            *damp,
            all,
            sums@,
            scored,
        );
    assert forall|q: int| #![trigger scored[q]] 0 <= q < scored.len() implies scored[q].lab_l
        == drafts@[q].lab_l by {
        assert(located(*locate, drafts@[q], sums@[q], all@[q]));
        assert(scored_among(
            *rate,
            *damp,
            all,
            q as usize,
            sums@[q].count as int,
            scored[q],
        ));
    }
    assert forall|q: int|
        #![trigger cluster_lightness(scored)[q]]
        0 <= q < scored.len() implies !cluster_lightness(scored)[q].is_nan() by {
        assert(scored[q].lab_l == drafts@[q].lab_l);
        assert(!drafts@[q].lab_l.is_nan());
    }
    let mut scores: Vec<Scalar> = Vec::new();
    let mut c: usize = 0;
    while c < k
        invariant
            c <= k,
            k == clusters@.len(),
            clusters@ == scored,
            scores@.len() == c,
            forall|q: int| #![trigger scores@[q]] 0 <= q < c ==> scores@[q] == dominance(scored)[q],
        decreases k - c,
    {
        scores.push(clusters[c].dominant_score);
        c += 1;
    }
    assert(scores@ =~= dominance(scored));
    let top: usize = match winner(scores.as_slice()) {
        Some(t) => t,
        None => 0,
    };
    let dominant = clusters[top];
    sort_by_lightness(&mut clusters);
    let r = ClusterResult4D { clusters, dominant, duration: no_time() };
    proof {
        let st = Clustering::<C, A> {
            fit: *fit,
            sums: sums@,
            drafts: drafts@,
            located: all,
            scored,
        };
        assert(clustered_by(
            st,
            w,
            h,
            start,
            *tally,
            *build,
            *locate,
            *rate,
            *damp,
            r,
        ));
    }
    r
}

/// `drafts` holds what `build` makes of each centre and its cluster's size.
pub open spec fn sized<C, B: Fn(&C, usize, usize) -> Cluster4D>(
    build: B,
    fit: Fit<C>,
    drafts: Seq<Cluster4D>,
) -> bool {
    let n = fit.assignments@.len();
    &&& drafts.len() == fit.centers@.len()
    &&& forall|c: int|
        #![trigger drafts[c]]
        0 <= c < drafts.len() ==> call_ensures(
            build,
            (
                &fit.centers@[c],
                members_of(fit.assignments@, c, n as int) as usize,
                n as usize,
            ),
            drafts[c],
        )
}

/// The shares of clusters.
pub open spec fn shares(clusters: Seq<Cluster4D>) -> Seq<Scalar> {
    Seq::new(clusters.len(), |i: int| clusters[i].proportion)
}

/// The result comes of clusters without regard to their place: the largest share
/// dominates, the last one among equals.
pub open spec fn plain_clusters_of<C, B: Fn(&C, usize, usize) -> Cluster4D>(
    build: B,
    fit: Fit<C>,
    r: ClusterResult4D,
) -> bool {
    exists|drafts: Seq<Cluster4D>|
        {
            &&& #[trigger] sized(build, fit, drafts)
            &&& r.dominant == drafts[winner_of(shares(drafts), drafts.len() as int)]
            &&& r.clusters@ == dark_to_light(drafts)
        }
}

/// `build` takes any cluster, and no lightness comes out that is not a number.
pub open spec fn builds_all<C, B: Fn(&C, usize, usize) -> Cluster4D>(build: B) -> bool {
    &&& forall|c: &C, m: usize, n: usize| #[trigger] call_requires(build, (c, m, n))
    &&& forall|c: &C, m: usize, n: usize, r: Cluster4D| #[trigger]
        call_ensures(build, (c, m, n), r) ==> !r.lab_l.is_nan()
}

/// Forms up to `k` clusters without regard to their place in the image: `cluster`
/// trains on all pixels, or on a batch of them, and `build` makes a cluster of its
/// centre, its size and the number of pixels.
pub fn cluster_baseline<
    C,
    E,
    F: Fn(&Vec<usize>, usize) -> Result<Fit<C>, E>,
    B: Fn(&C, usize, usize) -> Cluster4D,
>(n: usize, k: usize, seed: u64, minibatch: bool, cluster: &F, build: &B) -> (r: Result<
    ClusterResult4D,
    E,
>)
    requires
        n <= u32::MAX,
        fits_all(*cluster, n as int),
        builds_all(*build),
    ensures
        at_most(k as int, n as int) == 0 ==> r is Ok && r->Ok_0.clusters@.len() == 0
            && r->Ok_0.dominant == empty_cluster(),
        at_most(k as int, n as int) > 0 ==> exists|t: Vec<usize>, f: Result<Fit<C>, E>|
            {
                &&& t@ == training_items(n as int, seed, minibatch)
                &&& #[trigger] call_ensures(
                    *cluster,
                    (&t, at_most(k as int, n as int) as usize),
                    f,
                )
                &&& match f {
                    Err(e) => r == Err::<ClusterResult4D, E>(e),
                    Ok(fit) => r is Ok && plain_clusters_of(*build, fit, r->Ok_0),
                }
            },
        r is Ok ==> r->Ok_0.clusters@.len() == at_most(k as int, n as int),
        r is Ok ==> ascending(r->Ok_0.clusters@),
{
    let m: usize = if k <= n {
        k
    } else {
        n
    };
    if m == 0 {
        return Ok(
            ClusterResult4D {
                clusters: Vec::new(),
                dominant: make_empty_cluster(),
                duration: no_time(),
            },
        );
    }
    let begun = now();
    let items = if minibatch {
        draw_batch(n, seed)
    } else {
        count_up(n)
    };
    assert(m == at_most(k as int, n as int) as usize);
    assert(call_requires(*cluster, (&items, m)));
    let outcome = cluster(&items, m);
    assert(call_ensures(*cluster, (&items, at_most(k as int, n as int) as usize), outcome));
    match outcome {
        Err(e) => Err(e),
        Ok(fit) => {
            assert(fit.wf(n as int, m as int));
            let mut r = finish_baseline(&fit, build);
            r.duration = since(&begun);
            Ok(r)
        },
    }
}

fn finish_baseline<C, B: Fn(&C, usize, usize) -> Cluster4D>(fit: &Fit<C>, build: &B) -> (r:
    ClusterResult4D)
    requires
        fit.wf(fit.assignments@.len() as int, fit.centers@.len() as int),
        fit.centers@.len() > 0,
        builds_all(*build),
    ensures
        plain_clusters_of(*build, *fit, r),
        r.clusters@.len() == fit.centers@.len(),
        ascending(r.clusters@),
{
    let k = fit.centers.len();
    let n = fit.assignments.len();
    let counts = count_members(fit.assignments.as_slice(), k);
    let mut clusters: Vec<Cluster4D> = Vec::new();
    let mut scores: Vec<Scalar> = Vec::new();
    let mut c: usize = 0;
    while c < k
        invariant
            c <= k,
            k == fit.centers@.len(),
            n == fit.assignments@.len(),
            counts@.len() == k,
            forall|c: int|
                #![trigger counts@[c]]
                0 <= c < k ==> counts@[c] == members_of(fit.assignments@, c, n as int),
            builds_all(*build),
            clusters@.len() == c,
            forall|q: int|
                #![trigger clusters@[q]]
                0 <= q < c ==> !clusters@[q].lab_l.is_nan() && call_ensures(
                    *build,
                    (
                        &fit.centers@[q],
                        members_of(fit.assignments@, q, n as int) as usize,
                        n,
                    ),
                    clusters@[q],
                ),
            scores@.len() == c,
            forall|q: int|
                #![trigger scores@[q]]
                0 <= q < c ==> scores@[q] == clusters@[q].proportion,
        decreases k - c,
    {
        assert(call_requires(*build, (&fit.centers@[c as int], counts@[c as int], n)));
        let d = build(&fit.centers[c], counts[c], n);
        clusters.push(d);
        scores.push(d.proportion);
        c += 1;
    }
    let ghost drafts = clusters@;
    assert(sized(*build, *fit, drafts));
    assert(scores@ =~= shares(drafts));
    let top: usize = match winner(scores.as_slice()) {
        Some(t) => t,
        None => 0,
    };
    let dominant = clusters[top];
    assert forall|q: int|
        #![trigger cluster_lightness(drafts)[q]]
        0 <= q < drafts.len() implies !cluster_lightness(drafts)[q].is_nan() by {
        assert(!drafts[q].lab_l.is_nan());
    }
    sort_by_lightness(&mut clusters);
    ClusterResult4D { clusters, dominant, duration: no_time() }
}

/// Without regard to place, every cluster is built from its centre, its number of
/// members and that of all pixels, none has a larger share than the dominant one,
/// and they stand from dark to light.
pub proof fn largest_share_dominates<C, B: Fn(&C, usize, usize) -> Cluster4D>(
    build: B,
    fit: Fit<C>,
    r: ClusterResult4D,
    c: int,
) -> (draft: Cluster4D)
    requires
        plain_clusters_of(build, fit, r),
        builds_all(build),
        fit.centers@.len() <= usize::MAX,
        forall|x: &C, m: usize, n: usize, got: Cluster4D| #[trigger]
            call_ensures(build, (x, m, n), got) ==> !got.proportion.is_nan(),
        0 <= c < fit.centers@.len(),
    ensures
        call_ensures(
            build,
            (
                &fit.centers@[c],
                members_of(fit.assignments@, c, fit.assignments@.len() as int) as usize,
                fit.assignments@.len() as usize,
            ),
            draft,
        ),
        draft.proportion.le(r.dominant.proportion),
        r.clusters@.contains(draft),
        r.clusters@.contains(r.dominant),
        r.clusters@.len() == fit.centers@.len(),
        c > 0 ==> r.clusters@[c - 1].lab_l.le(r.clusters@[c].lab_l),
{
    let drafts = choose|drafts: Seq<Cluster4D>|
        {
            &&& #[trigger] sized(build, fit, drafts)
            &&& r.dominant == drafts[winner_of(shares(drafts), drafts.len() as int)]
            &&& r.clusters@ == dark_to_light(drafts)
        };
    let k = drafts.len() as int;
    assert forall|m: int| #![trigger drafts[m]] 0 <= m < k implies !drafts[m].proportion.is_nan()
        && !drafts[m].lab_l.is_nan() by {
        assert(call_ensures(
            build,
            (
                &fit.centers@[m],
                members_of(fit.assignments@, m, fit.assignments@.len() as int) as usize,
                fit.assignments@.len() as usize,
            ),
            drafts[m],
        ));
    }
    assert forall|m: int| #![trigger shares(drafts)[m]] 0 <= m < k implies
        !shares(drafts)[m].is_nan() by {
        assert(!drafts[m].proportion.is_nan());
    }
    assert forall|m: int| #![trigger cluster_lightness(drafts)[m]] 0 <= m < k implies
        !cluster_lightness(drafts)[m].is_nan() by {
        assert(!drafts[m].lab_l.is_nan());
    }
    crate::selection::winner_is_greatest(shares(drafts), k, c);
    sorting_keeps_clusters(drafts, c);
    sorting_keeps_clusters(drafts, winner_of(shares(drafts), k));
    assert(shares(drafts)[c] == drafts[c].proportion);
    drafts[c]
}

} // verus!
