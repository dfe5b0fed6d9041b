//! The border of an image, and what clusters have to do with it.

use vstd::prelude::*;
use crate::partition::{all_pixels, all_pixels_contains, Cluster};
use crate::region::{frame, pixel_at, pixel_in_frame};
use crate::scalar::{Scalar, MAX_BITS, ONE_BITS};

verus! {

/// Pixel `i` lies within `band` pixels of an edge of the image.
pub open spec fn on_border(width: u32, height: u32, band: int, i: int) -> bool {
    let x = i % (width as int);
    let y = i / (width as int);
    x < band || y < band || x + band >= width || y + band >= height
}

/// The border is at least one pixel wide.
pub open spec fn band_width(border_band: u32) -> int {
    if border_band >= 1 {
        border_band as int
    } else {
        1
    }
}

/// Marks the pixels of the border.
pub fn border_mask(width: u32, height: u32, border_band: u32) -> (mask: Vec<bool>)
    requires
        width * height <= u32::MAX,
    ensures
        mask@.len() == width * height,
        forall|i: int|
            #![trigger mask@[i]]
            0 <= i < mask@.len() ==> mask@[i] == on_border(
                width,
                height,
                band_width(border_band),
                i,
            ),
        forall|i: int|
            #![trigger mask@[i]]
            0 <= i < mask@.len() ==> {
                let b = if border_band == 0 {
                    1
                } else {
                    border_band as int
                };
                let x = i % (width as int);
                let y = i / (width as int);
                mask@[i] <==> x < b || y < b || width - x <= b || height - y <= b
            },
{
    let n = (width as u64 * height as u64) as usize;
    let band: u64 = if border_band >= 1 {
        border_band as u64
    } else {
        1
    };
    let mut mask: Vec<bool> = Vec::new();
    let mut i: usize = 0;
    while i < n
        invariant
            i <= n,
            n == width * height,
            frame(width, height, n as int),
            band == band_width(border_band),
            mask@.len() == i,
            forall|k: int|
                #![trigger mask@[k]]
                0 <= k < i ==> mask@[k] == on_border(width, height, band as int, k),
        decreases n - i,
    {
        proof {
            pixel_in_frame(width, height, n as int, i as int);
        }
        let x = (i % (width as usize)) as u64;
        let y = (i / (width as usize)) as u64;
        mask.push(x < band || y < band || x + band >= width as u64 || y + band >= height as u64);
        i += 1;
    }
    mask
}

/// The pixels below `k` that the mask marks, in order.
pub open spec fn marked(mask: Seq<bool>, k: int) -> Seq<usize>
    decreases k,
{
    if k <= 0 {
        seq![]
    } else if mask[k - 1] {
        marked(mask, k - 1).push((k - 1) as usize)
    } else {
        marked(mask, k - 1)
    }
}

/// The pixels that the mask marks, in order.
pub fn marked_pixels(mask: &[bool]) -> (pixels: Vec<usize>)
    ensures
        pixels@ == marked(mask@, mask@.len() as int),
{
    let mut pixels: Vec<usize> = Vec::new();
    let mut i: usize = 0;
    while i < mask.len()
        invariant
            i <= mask@.len(),
            pixels@ == marked(mask@, i as int),
        decreases mask@.len() - i,
    {
        if mask[i] {
            pixels.push(i);
        }
        i += 1;
    }
    pixels
}

/// Marked pixels are in the image and carry the mark.
pub proof fn marked_within(mask: Seq<bool>, k: int)
    requires
        0 <= k <= mask.len(),
        mask.len() <= usize::MAX,
    ensures
        forall|m: int|
            #![trigger marked(mask, k)[m]]
            0 <= m < marked(mask, k).len() ==> marked(mask, k)[m] < k && mask[marked(
                mask,
                k,
            )[m] as int],
        marked(mask, k).len() <= k,
    decreases k,
{
    if k > 0 {
        marked_within(mask, k - 1);
        let before = marked(mask, k - 1);
        let now = marked(mask, k);
        assert forall|m: int| #![trigger now[m]] 0 <= m < now.len() implies now[m] < k
            && mask[now[m] as int] by {
            if m < before.len() {
                assert(now[m] == before[m]);
            }
        }
    }
}

/// The border lies alike on all four sides: it looks the same when the image is
/// mirrored from left to right or upside down, it grows with the band, and a pixel
/// at least the band away from every side is not on it.
pub proof fn border_is_symmetric(width: u32, height: u32, band: int, x: int, y: int)
    requires
        0 <= x < width,
        0 <= y < height,
        1 <= band,
    ensures
        ({
            let w = width as int;
            let here = on_border(width, height, band, y * w + x);
            &&& here == on_border(width, height, band, y * w + (w - 1 - x))
            &&& here == on_border(width, height, band, (height - 1 - y) * w + x)
            &&& here ==> on_border(width, height, band + 1, y * w + x)
            &&& x == 0 || y == 0 || x == width - 1 || y == height - 1 ==> here
            &&& band <= x < width - band && band <= y < height - band ==> !here
            &&& x < band || y < band ==> here
        }),
{
    let w = width as int;
    pixel_at(w, x, y);
    pixel_at(w, w - 1 - x, y);
    pixel_at(w, x, height - 1 - y);
}

/// A pixel is background exactly when the cluster that holds it reaches the
/// cutoff; a pixel of no cluster is not.
pub proof fn clusters_decide_background<S>(
    cs: Seq<Cluster<S>>,
    scores: Seq<Scalar>,
    t: Scalar,
    c: int,
    p: usize,
)
    requires
        0 <= c < cs.len(),
        scores.len() == cs.len(),
        cs[c].indices@.contains(p),
        forall|d: int| 0 <= d < cs.len() && d != c ==> !(#[trigger] cs[d]).indices@.contains(p),
    ensures
        background_by(cs, scores, Cutoff::AtLeast(t), p as int) == t.le(scores[c]),
        background_by(cs, scores, Cutoff::Above(t), p as int) == t.lt(scores[c]),
{
    only_holder(cs, c, p, cs.len() as int);
}

proof fn only_holder<S>(cs: Seq<Cluster<S>>, c: int, p: usize, k: int)
    requires
        0 <= c < cs.len(),
        0 <= k <= cs.len(),
        cs[c].indices@.contains(p),
        forall|d: int| 0 <= d < cs.len() && d != c ==> !(#[trigger] cs[d]).indices@.contains(p),
    ensures
        holder(cs, p as int, k) == if k > c {
            Some(c)
        } else {
            None
        },
    decreases k,
{
    if k > 0 {
        only_holder(cs, c, p, k - 1);
        assert(k - 1 != c ==> !cs[k - 1].indices@.contains(p));
    }
}

/// Every pixel goes to a cluster nearest to it, the first among equals.
pub proof fn nearest_cluster_is_nearest<S, D: Fn(usize, &S) -> Scalar>(
    distance: D,
    cs: Seq<Cluster<S>>,
    p: usize,
    k: int,
    c: int,
)
    requires
        0 <= c < k <= cs.len(),
        forall|d: int|
            0 <= d < k ==> (#[trigger] away(distance, p, cs[d].summary)).lt(
                Scalar { bits: MAX_BITS },
            ),
    ensures
        ({
            let (best, d) = nearest_cluster(distance, cs, p, k);
            &&& 0 <= best < k
            &&& d == away(distance, p, cs[best].summary)
            &&& d.le(away(distance, p, cs[c].summary))
            &&& c < best ==> d.lt(away(distance, p, cs[c].summary))
        }),
    decreases k,
{
    assert(away(distance, p, cs[k - 1].summary).lt(Scalar { bits: MAX_BITS }));
    if k > 1 {
        assert(away(distance, p, cs[0].summary).lt(Scalar { bits: MAX_BITS }));
        if c < k - 1 {
            nearest_cluster_is_nearest(distance, cs, p, k - 1, c);
        } else {
            nearest_cluster_is_nearest(distance, cs, p, k - 1, 0);
        }
        let (best, d) = nearest_cluster(distance, cs, p, k - 1);
        assert(away(distance, p, cs[best].summary).lt(Scalar { bits: MAX_BITS }));
        assert(away(distance, p, cs[c].summary).lt(Scalar { bits: MAX_BITS }));
    } else {
        assert(nearest_cluster(distance, cs, p, 0).1 == (Scalar { bits: MAX_BITS }));
    }
}

/// Exactly the marked pixels are listed.
pub proof fn marked_lists_all(mask: Seq<bool>, k: int, i: int)
    requires
        0 <= i < k <= mask.len(),
        mask.len() <= usize::MAX,
    ensures
        marked(mask, k).contains(i as usize) <==> mask[i],
    decreases k,
{
    marked_within(mask, k);
    let now = marked(mask, k);
    if mask[i] {
        let before = marked(mask, k - 1);
        if i == k - 1 {
            assert(now[before.len() as int] == i as usize);
        } else {
            marked_lists_all(mask, k - 1, i);
            let m = choose|m: int| 0 <= m < before.len() && before[m] == i as usize;
            assert(now[m] == i as usize);
        }
    }
}

/// Greatest number of border prototypes.
pub const MAX_PROTOTYPES: usize = 96;

/// Distance of two prototypes in the list of border pixels.
pub open spec fn prototype_step(len: int) -> int {
    if len / MAX_PROTOTYPES as int >= 1 {
        len / MAX_PROTOTYPES as int
    } else {
        1
    }
}

/// Prototypes lie as far apart as ninety-six of them fit, and no closer than one
/// pixel.
pub proof fn prototypes_fill_their_number(len: int)
    requires
        0 <= len,
    ensures
        1 <= prototype_step(len),
        prototype_step(len) == 1 || 96 * prototype_step(len) <= len,
        96 * (prototype_step(len) + 1) > len,
{
}

/// At most 96 border pixels, evenly spread over the border.
pub fn border_prototypes(width: u32, height: u32, border_band: u32) -> (picked: Vec<usize>)
    requires
        width * height <= u32::MAX,
    ensures
        ({
            let all = marked(
                Seq::new(
                    (width * height) as nat,
                    |i: int| on_border(width, height, band_width(border_band), i),
                ),
                width * height,
            );
            let step = prototype_step(all.len() as int);
            let count = (all.len() + step - 1) / step;
            &&& picked@.len() == if count <= MAX_PROTOTYPES {
                count
            } else {
                MAX_PROTOTYPES as int
            }
            &&& forall|k: int|
                #![trigger picked@[k]]
                0 <= k < picked@.len() ==> picked@[k] == all[k * step]
        }),
{
    let mask = border_mask(width, height, border_band);
    let ghost flags = Seq::new(
        (width * height) as nat,
        |i: int| on_border(width, height, band_width(border_band), i),
    );
    assert(mask@ =~= flags);
    let all = marked_pixels(&mask);
    let share: usize = all.len() / MAX_PROTOTYPES;
    let step: usize = if share >= 1 {
        share
    } else {
        1
    };
    let mut picked: Vec<usize> = Vec::new();
    let mut at: u64 = 0;
    let total = all.len();
    proof {
        marked_within(mask@, mask@.len() as int);
    }
    while picked.len() < MAX_PROTOTYPES && at < total as u64
        invariant
            total == all@.len(),
            total <= u32::MAX,
            step == prototype_step(all@.len() as int),
            1 <= step <= total + 1,
            picked@.len() <= MAX_PROTOTYPES,
            at == picked@.len() * step,
            picked@.len() > 0 ==> (picked@.len() - 1) * step < total,
            forall|k: int|
                #![trigger picked@[k]]
                0 <= k < picked@.len() ==> picked@[k] == all@[k * step],
        decreases MAX_PROTOTYPES - picked@.len(),
    {
        let ghost m = picked@.len() as int;
        picked.push(all[at as usize]);
        proof {
            assert((m + 1) * step == m * step + step) by (nonlinear_arith);
        }
        at += step as u64;
    }
    proof {
        let m = picked@.len() as int;
        let s = step as int;
        let t = total as int;
        let count = (t + s - 1) / s;
        assert(m * s >= t || m == MAX_PROTOTYPES);
        if m * s >= t {
            assert(count == m) by (nonlinear_arith)
                requires
                    s >= 1,
                    count == (t + s - 1) / s,
                    m * s >= t,
                    m >= 0,
                    t >= 0,
                    m > 0 ==> (m - 1) * s < t,
                    m == 0 ==> t == 0,
            ;
        } else {
            assert(count > m) by (nonlinear_arith)
                requires
                    s >= 1,
                    count == (t + s - 1) / s,
                    m * s < t,
            ;
        }
    }
    picked
}

/// Number of the first `k` indices that the mask marks.
pub open spec fn count_marked(indices: Seq<usize>, mask: Seq<bool>, k: int) -> nat
    decreases k,
{
    if k <= 0 {
        0
    } else {
        count_marked(indices, mask, k - 1) + if mask[indices[k - 1] as int] {
            1nat
        } else {
            0nat
        }
    }
}

/// Every pixel of every cluster lies in an image of `n` pixels.
pub open spec fn clusters_within<S>(cs: Seq<Cluster<S>>, n: int) -> bool {
    forall|c: int, k: int|
        #![trigger cs[c].indices@[k]]
        0 <= c < cs.len() && 0 <= k < cs[c].indices@.len() ==> cs[c].indices@[k] < n
}

/// Clusters made of pixels of an image lie in the image.
pub proof fn clusters_made_of<S>(cs: Seq<Cluster<S>>, pixels: Seq<usize>, n: int)
    requires
        all_pixels(cs).to_multiset() == pixels.to_multiset(),
        forall|k: int| #![trigger pixels[k]] 0 <= k < pixels.len() ==> pixels[k] < n,
    ensures
        clusters_within(cs, n),
{
    broadcast use vstd::seq_lib::group_to_multiset_ensures;

    assert forall|c: int, k: int|
        #![trigger cs[c].indices@[k]]
        0 <= c < cs.len() && 0 <= k < cs[c].indices@.len() implies cs[c].indices@[k] < n by {
        all_pixels_contains(cs, c, k);
        let v = cs[c].indices@[k];
        assert(all_pixels(cs).to_multiset().count(v) > 0);
        assert(pixels.contains(v));
        let m = choose|m: int| 0 <= m < pixels.len() && pixels[m] == v;
        assert(pixels[m] < n);
    }
}

fn count_in(indices: &Vec<usize>, mask: &[bool]) -> (count: usize)
    requires
        forall|k: int|
            #![trigger indices@[k]]
            0 <= k < indices@.len() ==> indices@[k] < mask@.len(),
    ensures
        count == count_marked(indices@, mask@, indices@.len() as int),
        count <= indices@.len(),
{
    let mut count: usize = 0;
    let mut k: usize = 0;
    while k < indices.len()
        invariant
            k <= indices@.len(),
            forall|k: int|
                #![trigger indices@[k]]
                0 <= k < indices@.len() ==> indices@[k] < mask@.len(),
            count == count_marked(indices@, mask@, k as int),
            count <= k,
        decreases indices@.len() - k,
    {
        if mask[indices[k]] {
            count += 1;
        }
        k += 1;
    }
    count
}

/// `v` is the background score of the cluster: one for an empty cluster, else
/// what `score` makes of its summary, of how many of its pixels lie on the
/// border, and of how many it has.
pub open spec fn scored<S, Q: Fn(&S, usize, usize) -> Scalar>(
    score: Q,
    c: Cluster<S>,
    border: Seq<bool>,
    v: Scalar,
) -> bool {
    if c.indices@.len() == 0 {
        v.bits == ONE_BITS
    } else {
        call_ensures(
            score,
            (
                &c.summary,
                count_marked(c.indices@, border, c.indices@.len() as int) as usize,
                c.indices@.len() as usize,
            ),
            v,
        )
    }
}

/// A cluster is scored by its border pixels and all its pixels; an empty one scores
/// one.
pub proof fn clusters_are_scored_by_border<S, Q: Fn(&S, usize, usize) -> Scalar>(
    score: Q,
    c: Cluster<S>,
    border: Seq<bool>,
    v: Scalar,
) -> (count: usize)
    requires
        scored(score, c, border, v),
        c.indices@.len() <= usize::MAX,
    ensures
        c.indices@.len() == 0 ==> v.bits == 0x3FF0_0000_0000_0000,
        c.indices@.len() > 0 ==> call_ensures(score, (&c.summary, count, c.indices@.len() as usize), v),
        count <= c.indices@.len(),
        (forall|k: int|
            #![trigger c.indices@[k]]
            0 <= k < c.indices@.len() ==> border[c.indices@[k] as int]) ==> count
            == c.indices@.len(),
        (forall|k: int|
            #![trigger c.indices@[k]]
            0 <= k < c.indices@.len() ==> !border[c.indices@[k] as int]) ==> count == 0,
{
    let n = c.indices@.len() as int;
    marks_are_counted(c.indices@, border, n);
    count_marked(c.indices@, border, n) as usize
}

proof fn marks_are_counted(indices: Seq<usize>, mask: Seq<bool>, k: int)
    requires
        0 <= k <= indices.len(),
    ensures
        count_marked(indices, mask, k) <= k,
        (forall|m: int| #![trigger indices[m]] 0 <= m < k ==> mask[indices[m] as int])
            ==> count_marked(indices, mask, k) == k,
        (forall|m: int| #![trigger indices[m]] 0 <= m < k ==> !mask[indices[m] as int])
            ==> count_marked(indices, mask, k) == 0,
    decreases k,
{
    if k > 0 {
        marks_are_counted(indices, mask, k - 1);
        assert(indices[k - 1] == indices[k - 1]);
    }
}

/// The background score of each cluster.
pub fn score_clusters<S, Q: Fn(&S, usize, usize) -> Scalar>(
    cs: &Vec<Cluster<S>>,
    border: &[bool],
    score: &Q,
) -> (scores: Vec<Scalar>)
    requires
        clusters_within(cs@, border@.len() as int),
        forall|s: &S, a: usize, b: usize| a <= b ==> #[trigger] call_requires(*score, (s, a, b)),
    ensures
        scores@.len() == cs@.len(),
        forall|c: int|
            #![trigger scores@[c]]
            0 <= c < cs@.len() ==> scored(*score, cs@[c], border@, scores@[c]),
{
    let mut scores: Vec<Scalar> = Vec::new();
    let mut c: usize = 0;
    while c < cs.len()
        invariant
            c <= cs@.len(),
            clusters_within(cs@, border@.len() as int),
            forall|s: &S, a: usize, b: usize|
                a <= b ==> #[trigger] call_requires(*score, (s, a, b)),
            scores@.len() == c,
            forall|k: int|
                #![trigger scores@[k]]
                0 <= k < c ==> scored(*score, cs@[k], border@, scores@[k]),
        decreases cs@.len() - c,
    {
        let cluster = &cs[c];
        if cluster.indices.len() == 0 {
            scores.push(Scalar::new(ONE_BITS));
        } else {
            assert forall|k: int|
                #![trigger cluster.indices@[k]]
                0 <= k < cluster.indices@.len() implies cluster.indices@[k] < border@.len() by {
                assert(cs@[c as int].indices@[k] < border@.len());
            }
            let on = count_in(&cluster.indices, border);
            let v = (*score)(&cluster.summary, on, cluster.indices.len());
            scores.push(v);
        }
        c += 1;
    }
    scores
}

/// From which score on a cluster counts as background.
#[derive(Clone, Copy, Debug)]
pub enum Cutoff {
    /// At least this score.
    AtLeast(Scalar),
    /// A greater score.
    Above(Scalar),
}

impl Cutoff {
    /// The score counts as background.
    pub open spec fn reached_by(self, v: Scalar) -> bool {
        match self {
            Cutoff::AtLeast(t) => t.le(v),
            Cutoff::Above(t) => t.lt(v),
        }
    }

    fn reached(&self, v: &Scalar) -> (r: bool)
        ensures
            r == self.reached_by(*v),
    {
        match self {
            Cutoff::AtLeast(t) => t.at_most(v),
            Cutoff::Above(t) => t.less(v),
        }
    }
}

/// The last of the first `k` clusters that holds pixel `p`.
pub open spec fn holder<S>(cs: Seq<Cluster<S>>, p: int, k: int) -> Option<int>
    decreases k,
{
    if k <= 0 {
        None
    } else if cs[k - 1].indices@.contains(p as usize) {
        Some(k - 1)
    } else {
        holder(cs, p, k - 1)
    }
}

/// `map` names the cluster of pixel `p`, if there is one.
pub open spec fn names_holder<S>(map: Seq<Option<usize>>, cs: Seq<Cluster<S>>, p: int) -> bool {
    match holder(cs, p, cs.len() as int) {
        Some(c) => map[p] is Some && map[p]->Some_0 == c && 0 <= c < cs.len(),
        None => map[p] is None,
    }
}

/// The cluster of each pixel: the last one that holds it.
pub fn cluster_map<S>(cs: &Vec<Cluster<S>>, n: usize) -> (map: Vec<Option<usize>>)
    requires
        clusters_within(cs@, n as int),
    ensures
        map@.len() == n,
        forall|p: int|
            #![trigger map@[p]]
            0 <= p < n ==> names_holder(map@, cs@, p),
{
    let mut map: Vec<Option<usize>> = Vec::new();
    let mut i: usize = 0;
    while i < n
        invariant
            i <= n,
            map@.len() == i,
            forall|p: int| #![trigger map@[p]] 0 <= p < i ==> map@[p] is None,
        decreases n - i,
    {
        map.push(None);
        i += 1;
    }
    let mut c: usize = 0;
    while c < cs.len()
        invariant
            c <= cs@.len(),
            clusters_within(cs@, n as int),
            map@.len() == n,
            forall|p: int|
                #![trigger map@[p]]
                0 <= p < n ==> match holder(cs@, p, c as int) {
                    Some(c) => map@[p] is Some && map@[p]->Some_0 == c && 0 <= c < cs@.len(),
                    None => map@[p] is None,
                },
        decreases cs@.len() - c,
    {
        let ghost before = map@;
        let cluster = &cs[c];
        let mut k: usize = 0;
        while k < cluster.indices.len()
            invariant
                c < cs@.len(),
                clusters_within(cs@, n as int),
                *cluster == cs@[c as int],
                k <= cluster.indices@.len(),
                map@.len() == n,
                before.len() == n,
                forall|p: int|
                    #![trigger map@[p]]
                    0 <= p < n ==> map@[p] == if cluster.indices@.take(k as int).contains(
                        p as usize,
                    ) {
                        Some(c)
                    } else {
                        before[p]
                    },
            decreases cluster.indices@.len() - k,
        {
            let at = cluster.indices[k];
            assert(cs@[c as int].indices@[k as int] < n);
            let ghost prior = map@;
            map.set(at, Some(c));
            proof {
                let now = cluster.indices@.take(k + 1);
                let was = cluster.indices@.take(k as int);
                assert(now =~= was.push(at));
                assert forall|p: int| #![trigger map@[p]] 0 <= p < n implies map@[p] == if now.contains(
                    p as usize,
                ) {
                    Some(c)
                } else {
                    before[p]
                } by {
                    if p == at {
                        assert(now[k as int] == at);
                    } else {
                        assert(prior[p] == map@[p]);
                        if was.contains(p as usize) {
                            let q = choose|q: int| 0 <= q < was.len() && was[q] == p as usize;
                            assert(now[q] == p as usize);
                        }
                        if now.contains(p as usize) {
                            let q = choose|q: int| 0 <= q < now.len() && now[q] == p as usize;
                            assert(was[q] == p as usize);
                        }
                    }
                }
            }
            k += 1;
        }
        proof {
            assert(cluster.indices@.take(cluster.indices@.len() as int) =~= cluster.indices@);
            assert forall|p: int| #![trigger map@[p]] 0 <= p < n implies match holder(
                cs@,
                p,
                c + 1,
            ) {
                Some(c) => map@[p] is Some && map@[p]->Some_0 == c && 0 <= c < cs@.len(),
                None => map@[p] is None,
            } by {
                assert(match holder(cs@, p, c as int) {
                    Some(c) => before[p] is Some && before[p]->Some_0 == c && 0 <= c < cs@.len(),
                    None => before[p] is None,
                });
            }
        }
        c += 1;
    }
    map
}

/// Pixel `p` is background: the cluster that holds it has a background score.
pub open spec fn background_by<S>(
    cs: Seq<Cluster<S>>,
    scores: Seq<Scalar>,
    cutoff: Cutoff,
    p: int,
) -> bool {
    match holder(cs, p, cs.len() as int) {
        Some(c) => cutoff.reached_by(scores[c]),
        None => false,
    }
}

/// The pixels of the clusters that count as background.
pub fn clusters_to_bg_mask<S>(
    cs: &Vec<Cluster<S>>,
    scores: &[Scalar],
    n: usize,
    cutoff: &Cutoff,
) -> (mask: Vec<bool>)
    requires
        clusters_within(cs@, n as int),
        scores@.len() == cs@.len(),
    ensures
        mask@.len() == n,
        forall|p: int|
            #![trigger mask@[p]]
            0 <= p < n ==> mask@[p] == background_by(cs@, scores@, *cutoff, p),
{
    let map = cluster_map(cs, n);
    let mut mask: Vec<bool> = Vec::new();
    let mut p: usize = 0;
    while p < n
        invariant
            p <= n,
            map@.len() == n,
            scores@.len() == cs@.len(),
            forall|p: int|
                #![trigger map@[p]]
                0 <= p < n ==> names_holder(map@, cs@, p),
            mask@.len() == p,
            forall|q: int|
                #![trigger mask@[q]]
                0 <= q < p ==> mask@[q] == background_by(cs@, scores@, *cutoff, q),
        decreases n - p,
    {
        let v: bool = match map[p] {
            Some(c) => cutoff.reached(&scores[c]),
            None => false,
        };
        mask.push(v);
        p += 1;
    }
    mask
}

/// `distance` accepts every pixel and summary and always gives the same answer.
pub open spec fn is_affinity<S, D: Fn(usize, &S) -> Scalar>(distance: D) -> bool {
    &&& forall|p: usize, s: &S| #[trigger] call_requires(distance, (p, s))
    &&& forall|p: usize, s: &S, a: Scalar, b: Scalar|
        #![trigger call_ensures(distance, (p, s), a), call_ensures(distance, (p, s), b)]
        call_ensures(distance, (p, s), a) && call_ensures(distance, (p, s), b) ==> a == b
}

/// The distance of a pixel from a cluster.
pub open spec fn away<S, D: Fn(usize, &S) -> Scalar>(distance: D, p: usize, s: S) -> Scalar {
    choose|r: Scalar| call_ensures(distance, (p, &s), r)
}

/// Among the first `k` clusters the one nearest to pixel `p`, the first among
/// equals, with its distance; the first cluster where no distance is below the
/// greatest finite number.
pub open spec fn nearest_cluster<S, D: Fn(usize, &S) -> Scalar>(
    distance: D,
    cs: Seq<Cluster<S>>,
    p: usize,
    k: int,
) -> (int, Scalar)
    decreases k,
{
    if k <= 0 {
        (0, Scalar { bits: MAX_BITS })
    } else {
        let before = nearest_cluster(distance, cs, p, k - 1);
        let d = away(distance, p, cs[k - 1].summary);
        if d.lt(before.1) {
            (k - 1, d)
        } else {
            before
        }
    }
}

/// The pixels below `k` that go to cluster `c`, in order.
pub open spec fn assigned<S, D: Fn(usize, &S) -> Scalar>(
    distance: D,
    cs: Seq<Cluster<S>>,
    c: int,
    k: int,
) -> Seq<usize>
    decreases k,
{
    if k <= 0 {
        seq![]
    } else {
        let before = assigned(distance, cs, c, k - 1);
        if nearest_cluster(distance, cs, (k - 1) as usize, cs.len() as int).0 == c {
            before.push((k - 1) as usize)
        } else {
            before
        }
    }
}

/// Assigned pixels lie in the image.
pub proof fn assigned_within<S, D: Fn(usize, &S) -> Scalar>(
    distance: D,
    cs: Seq<Cluster<S>>,
    c: int,
    n: int,
)
    requires
        0 <= n <= usize::MAX,
    ensures
        forall|k: int|
            #![trigger assigned(distance, cs, c, n)[k]]
            0 <= k < assigned(distance, cs, c, n).len() ==> assigned(distance, cs, c, n)[k] < n,
    decreases n,
{
    if n > 0 {
        assigned_within(distance, cs, c, n - 1);
        let before = assigned(distance, cs, c, n - 1);
        let now = assigned(distance, cs, c, n);
        assert forall|k: int| #![trigger now[k]] 0 <= k < now.len() implies now[k] < n by {
            if k < before.len() {
                assert(now[k] == before[k]);
            }
        }
    }
}

/// Gives every pixel of an image of `n` to the cluster nearest to it; summaries
/// stay as they are.
pub fn reassign_indices<S, D: Fn(usize, &S) -> Scalar>(
    cs: Vec<Cluster<S>>,
    n: usize,
    distance: &D,
) -> (out: Vec<Cluster<S>>)
    requires
        cs@.len() > 0,
        is_affinity(*distance),
    ensures
        out@.len() == cs@.len(),
        forall|c: int|
            #![trigger out@[c]]
            0 <= c < out@.len() ==> out@[c].summary == cs@[c].summary && out@[c].indices@
                == assigned(*distance, cs@, c, n as int),
{
    let mut lists: Vec<Vec<usize>> = Vec::new();
    let mut c: usize = 0;
    while c < cs.len()
        invariant
            c <= cs@.len(),
            lists@.len() == c,
            forall|k: int|
                #![trigger lists@[k]]
                0 <= k < c ==> lists@[k]@ == assigned(*distance, cs@, k, 0),
        decreases cs@.len() - c,
    {
        lists.push(Vec::new());
        c += 1;
    }
    let mut p: usize = 0;
    while p < n
        invariant
            p <= n,
            cs@.len() > 0,
            is_affinity(*distance),
            lists@.len() == cs@.len(),
            forall|k: int|
                #![trigger lists@[k]]
                0 <= k < cs@.len() ==> lists@[k]@ == assigned(*distance, cs@, k, p as int),
        decreases n - p,
    {
        let mut best: usize = 0;
        let mut best_dist = Scalar::new(MAX_BITS);
        let mut j: usize = 0;
        while j < cs.len()
            invariant
                j <= cs@.len(),
                is_affinity(*distance),
                best < cs@.len(),
                (best as int, best_dist) == nearest_cluster(*distance, cs@, p, j as int),
            decreases cs@.len() - j,
        {
            let d = (*distance)(p, &cs[j].summary);
            assert(d == away(*distance, p, cs@[j as int].summary));
            if d.less(&best_dist) {
                best_dist = d;
                best = j;
            }
            j += 1;
        }
        let ghost before = lists@;
        lists[best].push(p);
        proof {
            assert forall|k: int| #![trigger lists@[k]] 0 <= k < cs@.len() implies lists@[k]@
                == assigned(*distance, cs@, k, p + 1) by {
                assert(before[k]@ == assigned(*distance, cs@, k, p as int));
            }
        }
        p += 1;
    }
    rebuild_clusters(cs, lists)
}

/// The clusters with other pixels.
fn rebuild_clusters<S>(cs: Vec<Cluster<S>>, lists: Vec<Vec<usize>>) -> (out: Vec<Cluster<S>>)
    requires
        lists@.len() == cs@.len(),
    ensures
        out@.len() == cs@.len(),
        forall|c: int|
            #![trigger out@[c]]
            0 <= c < out@.len() ==> out@[c].summary == cs@[c].summary && out@[c].indices
                == lists@[c],
{
    let ghost n = cs@.len() as int;
    let ghost cs0 = cs@;
    let ghost lists0 = lists@;
    let mut cs = cs;
    let mut lists = lists;
    let mut back: Vec<Cluster<S>> = Vec::new();
    while cs.len() > 0
        invariant
            cs@.len() == lists@.len(),
            cs@.len() + back@.len() == n,
            n == cs0.len(),
            n == lists0.len(),
            forall|k: int| #![trigger cs@[k]] 0 <= k < cs@.len() ==> cs@[k] == cs0[k],
            forall|k: int| #![trigger lists@[k]] 0 <= k < lists@.len() ==> lists@[k] == lists0[k],
            forall|k: int|
                #![trigger back@[k]]
                0 <= k < back@.len() ==> back@[k].summary == cs0[n - 1 - k].summary
                    && back@[k].indices == lists0[n - 1 - k],
        decreases cs@.len(),
    {
        if let Some(c) = cs.pop() {
            if let Some(l) = lists.pop() {
                back.push(Cluster { indices: l, summary: c.summary });
            }
        }
    }
    let mut out: Vec<Cluster<S>> = Vec::new();
    while back.len() > 0
        invariant
            out@.len() + back@.len() == n,
            n == cs0.len(),
            n == lists0.len(),
            forall|k: int|
                #![trigger back@[k]]
                0 <= k < back@.len() ==> back@[k].summary == cs0[n - 1 - k].summary
                    && back@[k].indices == lists0[n - 1 - k],
            forall|k: int|
                #![trigger out@[k]]
                0 <= k < out@.len() ==> out@[k].summary == cs0[k].summary && out@[k].indices
                    == lists0[k],
        decreases back@.len(),
    {
        if let Some(c) = back.pop() {
            out.push(c);
        }
    }
    out
}

/// The border is as wide as is asked for, and at least one pixel.
pub proof fn some_border_is_left(border_band: u32)
    ensures
        band_width(border_band) >= 1,
        border_band >= 1 ==> band_width(border_band) == border_band,
        border_band == 0 ==> band_width(border_band) == 1,
{
}

} // verus!
