//! Splitting a region along strong edges inside it.

use vstd::prelude::*;
use crate::ccl::{
    ccl_within_region, component_numbers, component_numbers_dense, components,
    components_are_classes, part_edges, part_edges_are_links, part_leaders, participants,
};
use crate::classes::edge_ends_share_class;
use crate::dilate::{dilate_boundary, dilated, one_step_adds_neighbours};
use crate::region::{
    area_of, area_positive, areas_add_up, areas_sum, carries, columns, frame, labelled,
    neighbour_coordinates, pixel_in_frame, rows, total_bounded, total_of, Region,
};
use crate::scalar::{Scalar, MAX_BITS};

verus! {

/// Number of pixels and sums of their columns and rows: the centroid is the sums
/// over the count.
#[derive(Clone, Copy, Debug, PartialEq, Eq, Structural)]
pub struct Moments {
    pub count: usize,
    pub sum_x: u64,
    pub sum_y: u64,
}

/// A part of the region: its moments and bounding box.
#[derive(Clone, Copy, Debug)]
pub struct SubCandidate {
    pub moments: Moments,
    pub min_x: u32,
    pub min_y: u32,
    pub max_x: u32,
    pub max_y: u32,
}

/// The least of `start` and of `vals` over the pixels below `k` that carry the
/// label `r`.
pub open spec fn min_over(
    labels: Seq<Option<usize>>,
    vals: Seq<int>,
    r: int,
    k: int,
    start: int,
) -> int
    decreases k,
{
    if k <= 0 {
        start
    } else {
        let before = min_over(labels, vals, r, k - 1, start);
        if carries(labels, r, k - 1) && vals[k - 1] < before {
            vals[k - 1]
        } else {
            before
        }
    }
}

/// The greatest of 0 and of `vals` over the pixels below `k` that carry the
/// label `r`.
pub open spec fn max_over(labels: Seq<Option<usize>>, vals: Seq<int>, r: int, k: int) -> int
    decreases k,
{
    if k <= 0 {
        0
    } else {
        let before = max_over(labels, vals, r, k - 1);
        if carries(labels, r, k - 1) && vals[k - 1] > before {
            vals[k - 1]
        } else {
            before
        }
    }
}

/// The moments of the pixels that carry the label `r`.
pub open spec fn moments_of(labels: Seq<Option<usize>>, r: int, w: int) -> Moments {
    let n = labels.len();
    Moments {
        count: area_of(labels, r, n as int) as usize,
        sum_x: total_of(labels, columns(w, n), r, n as int) as u64,
        sum_y: total_of(labels, rows(w, n), r, n as int) as u64,
    }
}

impl SubCandidate {
    /// The part consists of the pixels below `k` that carry the label `r`.
    pub open spec fn describes(
        self,
        labels: Seq<Option<usize>>,
        r: int,
        w: int,
        k: int,
    ) -> bool {
        let xs = columns(w, labels.len());
        let ys = rows(w, labels.len());
        &&& self.moments.count == area_of(labels, r, k)
        &&& self.moments.sum_x == total_of(labels, xs, r, k)
        &&& self.moments.sum_y == total_of(labels, ys, r, k)
        &&& self.min_x == min_over(labels, xs, r, k, w)
        &&& self.min_y == min_over(labels, ys, r, k, u32::MAX as int)
        &&& self.max_x == max_over(labels, xs, r, k)
        &&& self.max_y == max_over(labels, ys, r, k)
    }

    fn new(width: u32) -> (s: SubCandidate)
        ensures
            s.moments == (Moments { count: 0, sum_x: 0, sum_y: 0 }),
            s.min_x == width,
            s.min_y == u32::MAX,
            s.max_x == 0,
            s.max_y == 0,
    {
        SubCandidate {
            moments: Moments { count: 0, sum_x: 0, sum_y: 0 },
            min_x: width,
            min_y: u32::MAX,
            max_x: 0,
            max_y: 0,
        }
    }

    fn with_pixel(&self, x: u32, y: u32) -> (s: SubCandidate)
        requires
            self.moments.count < usize::MAX,
            self.moments.sum_x + x <= u64::MAX,
            self.moments.sum_y + y <= u64::MAX,
        ensures
            s.moments.count == self.moments.count + 1,
            s.moments.sum_x == self.moments.sum_x + x,
            s.moments.sum_y == self.moments.sum_y + y,
            s.min_x == if x < self.min_x { x } else { self.min_x },
            s.min_y == if y < self.min_y { y } else { self.min_y },
            s.max_x == if x > self.max_x { x } else { self.max_x },
            s.max_y == if y > self.max_y { y } else { self.max_y },
    {
        SubCandidate {
            moments: Moments {
                count: self.moments.count + 1,
                sum_x: self.moments.sum_x + x as u64,
                sum_y: self.moments.sum_y + y as u64,
            },
            min_x: if x < self.min_x {
                x
            } else {
                self.min_x
            },
            min_y: if y < self.min_y {
                y
            } else {
                self.min_y
            },
            max_x: if x > self.max_x {
                x
            } else {
                self.max_x
            },
            max_y: if y > self.max_y {
                y
            } else {
                self.max_y
            },
        }
    }

    fn with_part(&self, o: &SubCandidate) -> (s: SubCandidate)
        requires
            self.moments.count + o.moments.count <= usize::MAX,
            self.moments.sum_x + o.moments.sum_x <= u64::MAX,
            self.moments.sum_y + o.moments.sum_y <= u64::MAX,
        ensures
            s.moments.count == self.moments.count + o.moments.count,
            s.moments.sum_x == self.moments.sum_x + o.moments.sum_x,
            s.moments.sum_y == self.moments.sum_y + o.moments.sum_y,
            s.min_x == if o.min_x < self.min_x { o.min_x } else { self.min_x },
            s.min_y == if o.min_y < self.min_y { o.min_y } else { self.min_y },
            s.max_x == if o.max_x > self.max_x { o.max_x } else { self.max_x },
            s.max_y == if o.max_y > self.max_y { o.max_y } else { self.max_y },
    {
        SubCandidate {
            moments: Moments {
                count: self.moments.count + o.moments.count,
                sum_x: self.moments.sum_x + o.moments.sum_x,
                sum_y: self.moments.sum_y + o.moments.sum_y,
            },
            min_x: if o.min_x < self.min_x {
                o.min_x
            } else {
                self.min_x
            },
            min_y: if o.min_y < self.min_y {
                o.min_y
            } else {
                self.min_y
            },
            max_x: if o.max_x > self.max_x {
                o.max_x
            } else {
                self.max_x
            },
            max_y: if o.max_y > self.max_y {
                o.max_y
            } else {
                self.max_y
            },
        }
    }
}

/// `distance` accepts every pair of moments and always gives the same answer.
pub open spec fn is_metric<D: Fn(Moments, Moments) -> Scalar>(distance: D) -> bool {
    &&& forall|a: Moments, b: Moments| #[trigger] call_requires(distance, (a, b))
    &&& forall|a: Moments, b: Moments, r: Scalar, s: Scalar|
        #![trigger call_ensures(distance, (a, b), r), call_ensures(distance, (a, b), s)]
        call_ensures(distance, (a, b), r) && call_ensures(distance, (a, b), s) ==> r == s
}

/// The distance of two centroids.
pub open spec fn apart<D: Fn(Moments, Moments) -> Scalar>(
    distance: D,
    a: Moments,
    b: Moments,
) -> Scalar {
    choose|r: Scalar| call_ensures(distance, (a, b), r)
}

/// The nearest of the first `k` of `targets`, the first among equals, with its
/// distance; only distances below the greatest finite number count.
pub open spec fn nearest<D: Fn(Moments, Moments) -> Scalar>(
    distance: D,
    from: Moments,
    ms: Seq<Moments>,
    targets: Seq<usize>,
    k: int,
) -> (Option<int>, Scalar)
    decreases k,
{
    if k <= 0 {
        (None, Scalar { bits: MAX_BITS })
    } else {
        let before = nearest(distance, from, ms, targets, k - 1);
        let t = targets[k - 1] as int;
        let d = apart(distance, from, ms[t]);
        if d.lt(before.1) {
            (Some(t), d)
        } else {
            before
        }
    }
}

/// The moments of each of `m` parts.
pub open spec fn all_moments(labels: Seq<Option<usize>>, m: int, w: int) -> Seq<Moments> {
    Seq::new(m as nat, |t: int| moments_of(labels, t, w))
}

/// The parts of at least `min_area` pixels, among the first `m`.
pub open spec fn survivors(labels: Seq<Option<usize>>, min_area: int, m: int) -> Seq<usize>
    decreases m,
{
    if m <= 0 {
        seq![]
    } else {
        let before = survivors(labels, min_area, m - 1);
        if area_of(labels, m - 1, labels.len() as int) >= min_area {
            before.push((m - 1) as usize)
        } else {
            before
        }
    }
}

/// The label map in which part `s` has gone over to part `t`.
pub open spec fn handed_over(labels: Seq<Option<usize>>, s: int, t: int) -> Seq<Option<usize>> {
    Seq::new(
        labels.len(),
        |i: int|
            if carries(labels, s, i) {
                Some(t as usize)
            } else {
                labels[i]
            },
    )
}

/// The part that small part `s` goes over to, given the current parts.
pub open spec fn absorber<D: Fn(Moments, Moments) -> Scalar>(
    distance: D,
    labels: Seq<Option<usize>>,
    s: int,
    targets: Seq<usize>,
    m: int,
    w: int,
) -> Option<int> {
    nearest(
        distance,
        moments_of(labels, s, w),
        all_moments(labels, m, w),
        targets,
        targets.len() as int,
    ).0
}

/// The parts after each small part among the first `k` of `m` has gone over to
/// the nearest of `targets`.
pub open spec fn after_absorbing<D: Fn(Moments, Moments) -> Scalar>(
    distance: D,
    labels: Seq<Option<usize>>,
    targets: Seq<usize>,
    m: int,
    w: int,
    k: int,
) -> Seq<Option<usize>>
    decreases k,
{
    if k <= 0 {
        labels
    } else {
        let before = after_absorbing(distance, labels, targets, m, w, k - 1);
        if targets.contains((k - 1) as usize) {
            before
        } else {
            match absorber(distance, before, k - 1, targets, m, w) {
                Some(t) => handed_over(before, k - 1, t),
                None => before,
            }
        }
    }
}

/// Where the pixels of part `s` are counted in the end: survivors keep their own,
/// and an absorbed part is listed under the survivor that absorbed it.
pub open spec fn listed_under<D: Fn(Moments, Moments) -> Scalar>(
    distance: D,
    labels: Seq<Option<usize>>,
    targets: Seq<usize>,
    m: int,
    w: int,
    s: int,
) -> Option<int> {
    if targets.contains(s as usize) {
        Some(targets.index_of(s as usize))
    } else {
        let then = after_absorbing(distance, labels, targets, m, w, s);
        match absorber(distance, then, s, targets, m, w) {
            Some(t) => Some(targets.index_of(t as usize)),
            None => None,
        }
    }
}

/// The pixels of region `id` with an edge of at least `limit`.
pub open spec fn strong_pixels(
    labels: Seq<Option<usize>>,
    id: int,
    edge: Seq<Scalar>,
    limit: Scalar,
) -> Seq<bool> {
    Seq::new(labels.len(), |i: int| carries(labels, id, i) && limit.le(edge[i]))
}

/// The pixels of region `id` that are off the strong pixels and their
/// neighbours.
pub open spec fn calm_pixels(
    labels: Seq<Option<usize>>,
    id: int,
    edge: Seq<Scalar>,
    limit: Scalar,
    w: int,
) -> Seq<bool> {
    let barrier = dilated(strong_pixels(labels, id, edge, limit), w, 1);
    Seq::new(labels.len(), |i: int| carries(labels, id, i) && !barrier[i])
}

/// The region's parts: each pixel with the number of its calm component, pixels
/// on the barrier with the first.
pub open spec fn parts(
    labels: Seq<Option<usize>>,
    id: int,
    edge: Seq<Scalar>,
    limit: Scalar,
    w: int,
) -> Seq<Option<usize>> {
    let numbers = component_numbers(calm_pixels(labels, id, edge, limit, w), w);
    Seq::new(
        labels.len(),
        |i: int|
            if carries(labels, id, i) {
                Some(numbers[i] as usize)
            } else {
                None
            },
    )
}

/// Number of calm components.
pub open spec fn part_count(
    labels: Seq<Option<usize>>,
    id: int,
    edge: Seq<Scalar>,
    limit: Scalar,
    w: int,
) -> int {
    let calm = calm_pixels(labels, id, edge, limit, w);
    part_leaders(components(calm, w), calm, calm.len() as int) as int
}

/// The region splits: it has a strong edge and at least two parts that are large
/// enough.
pub open spec fn splits(
    labels: Seq<Option<usize>>,
    id: int,
    edge: Seq<Scalar>,
    limit: Scalar,
    min_area: int,
    w: int,
) -> bool {
    let m = part_count(labels, id, edge, limit, w);
    &&& strong_pixels(labels, id, edge, limit).contains(true)
    &&& m > 1
    &&& survivors(parts(labels, id, edge, limit, w), min_area, m).len() > 1
}

/// The region made of the pixels that carry the label `t`.
pub open spec fn part_region(
    labels: Seq<Option<usize>>,
    t: int,
    q: int,
    cluster_id: usize,
    w: int,
) -> Region {
    let n = labels.len();
    let xs = columns(w, n);
    let ys = rows(w, n);
    let m = moments_of(labels, t, w);
    Region {
        id: q as usize,
        cluster_id,
        area: m.count,
        sum_x: m.sum_x,
        sum_y: m.sum_y,
        bbox: (
            min_over(labels, xs, t, n as int, w) as u32,
            min_over(labels, ys, t, n as int, u32::MAX as int) as u32,
            max_over(labels, xs, t, n as int) as u32,
            max_over(labels, ys, t, n as int) as u32,
        ),
        pixel_count: m.count,
    }
}

/// The regions that a region becomes.
pub open spec fn split_regions<D: Fn(Moments, Moments) -> Scalar>(
    region: Region,
    labels: Seq<Option<usize>>,
    edge: Seq<Scalar>,
    limit: Scalar,
    min_area: int,
    w: int,
    distance: D,
) -> Seq<Region> {
    let id = region.id as int;
    if !splits(labels, id, edge, limit, min_area, w) {
        seq![region]
    } else {
        let first = parts(labels, id, edge, limit, w);
        let m = part_count(labels, id, edge, limit, w);
        let targets = survivors(first, min_area, m);
        let last = after_absorbing(distance, first, targets, m, w, m);
        Seq::new(
            targets.len(),
            |q: int| part_region(last, targets[q] as int, q, region.cluster_id, w),
        )
    }
}

/// The number of the new region of each pixel of a region that splits.
pub open spec fn split_labels<D: Fn(Moments, Moments) -> Scalar>(
    region: Region,
    labels: Seq<Option<usize>>,
    edge: Seq<Scalar>,
    limit: Scalar,
    min_area: int,
    w: int,
    distance: D,
) -> Seq<Option<usize>> {
    let id = region.id as int;
    if !splits(labels, id, edge, limit, min_area, w) {
        Seq::new(labels.len(), |i: int| None)
    } else {
        let first = parts(labels, id, edge, limit, w);
        let m = part_count(labels, id, edge, limit, w);
        let targets = survivors(first, min_area, m);
        Seq::new(
            labels.len(),
            |i: int|
                match first[i] {
                    Some(s) => match listed_under(distance, first, targets, m, w, s as int) {
                        Some(q) => Some(q as usize),
                        None => None,
                    },
                    None => None,
                },
        )
    }
}

proof fn survivors_listed(labels: Seq<Option<usize>>, min_area: int, m: int)
    requires
        0 <= m <= usize::MAX,
    ensures
        ({
            let t = survivors(labels, min_area, m);
            &&& t.len() <= m
            &&& forall|k: int|
                #![trigger t[k]]
                0 <= k < t.len() ==> t[k] < m && area_of(
                    labels,
                    t[k] as int,
                    labels.len() as int,
                ) >= min_area
            &&& forall|k: int, q: int|
                #![trigger t[k], t[q]]
                0 <= k < q < t.len() ==> t[k] < t[q]
            &&& forall|r: int|
                0 <= r < m && #[trigger] area_of(labels, r, labels.len() as int) >= min_area
                    ==> t.contains(r as usize)
        }),
    decreases m,
{
    if m > 0 {
        survivors_listed(labels, min_area, m - 1);
        let before = survivors(labels, min_area, m - 1);
        let t = survivors(labels, min_area, m);
        assert forall|r: int|
            0 <= r < m && #[trigger] area_of(labels, r, labels.len() as int)
                >= min_area implies t.contains(r as usize) by {
            if r < m - 1 {
                let k = choose|k: int| 0 <= k < before.len() && before[k] == r as usize;
                assert(t[k] == r as usize);
            } else {
                assert(t[t.len() - 1] == r as usize);
            }
        }
    }
}

proof fn handed_over_sums(
    labels: Seq<Option<usize>>,
    vals: Seq<int>,
    s: int,
    t: int,
    r: int,
    k: int,
    start: int,
)
    requires
        0 <= k <= labels.len(),
        s != t,
        0 <= t <= usize::MAX,
    ensures
        ({
            let h = handed_over(labels, s, t);
            &&& area_of(h, t, k) == area_of(labels, t, k) + area_of(labels, s, k)
            &&& total_of(h, vals, t, k) == total_of(labels, vals, t, k) + total_of(
                labels,
                vals,
                s,
                k,
            )
            &&& min_over(h, vals, t, k, start) == if min_over(labels, vals, s, k, start) < min_over(
                labels,
                vals,
                t,
                k,
                start,
            ) {
                min_over(labels, vals, s, k, start)
            } else {
                min_over(labels, vals, t, k, start)
            }
            &&& max_over(h, vals, t, k) == if max_over(labels, vals, s, k) > max_over(
                labels,
                vals,
                t,
                k,
            ) {
                max_over(labels, vals, s, k)
            } else {
                max_over(labels, vals, t, k)
            }
            &&& r != s && r != t ==> {
                &&& area_of(h, r, k) == area_of(labels, r, k)
                &&& total_of(h, vals, r, k) == total_of(labels, vals, r, k)
                &&& min_over(h, vals, r, k, start) == min_over(labels, vals, r, k, start)
                &&& max_over(h, vals, r, k) == max_over(labels, vals, r, k)
            }
        }),
    decreases k,
{
    if k > 0 {
        handed_over_sums(labels, vals, s, t, r, k - 1, start);
        let h = handed_over(labels, s, t);
        assert(h[k - 1] == if carries(labels, s, k - 1) {
            Some(t as usize)
        } else {
            labels[k - 1]
        });
    }
}

proof fn handed_over_part(
    labels: Seq<Option<usize>>,
    s: int,
    t: int,
    r: int,
    w: int,
    cs: SubCandidate,
    ct: SubCandidate,
    cr: SubCandidate,
    joined: SubCandidate,
)
    requires
        s != t,
        0 <= t <= usize::MAX,
        cs.describes(labels, s, w, labels.len() as int),
        ct.describes(labels, t, w, labels.len() as int),
        joined.moments.count == ct.moments.count + cs.moments.count,
        joined.moments.sum_x == ct.moments.sum_x + cs.moments.sum_x,
        joined.moments.sum_y == ct.moments.sum_y + cs.moments.sum_y,
        joined.min_x == if cs.min_x < ct.min_x { cs.min_x } else { ct.min_x },
        joined.min_y == if cs.min_y < ct.min_y { cs.min_y } else { ct.min_y },
        joined.max_x == if cs.max_x > ct.max_x { cs.max_x } else { ct.max_x },
        joined.max_y == if cs.max_y > ct.max_y { cs.max_y } else { ct.max_y },
    ensures
        joined.describes(handed_over(labels, s, t), t, w, labels.len() as int),
        r != s && r != t && cr.describes(labels, r, w, labels.len() as int) ==> cr.describes(
            handed_over(labels, s, t),
            r,
            w,
            labels.len() as int,
        ),
{
    let n = labels.len() as int;
    handed_over_sums(labels, columns(w, labels.len()), s, t, r, n, w);
    handed_over_sums(labels, rows(w, labels.len()), s, t, r, n, u32::MAX as int);
}

proof fn moments_fit(labels: Seq<Option<usize>>, r: int, width: u32, height: u32, k: int)
    requires
        frame(width, height, labels.len() as int),
        0 <= k <= labels.len(),
    ensures
        area_of(labels, r, k) <= k,
        0 <= total_of(labels, columns(width as int, labels.len()), r, k) <= k * u32::MAX,
        0 <= total_of(labels, rows(width as int, labels.len()), r, k) <= k * u32::MAX,
        k * u32::MAX + u32::MAX <= u64::MAX,
{
    let xs = columns(width as int, labels.len());
    let ys = rows(width as int, labels.len());
    assert forall|i: int| 0 <= i < k implies 0 <= #[trigger] xs[i] <= u32::MAX by {
        pixel_in_frame(width, height, labels.len() as int, i);
    }
    assert forall|i: int| 0 <= i < k implies 0 <= #[trigger] ys[i] <= u32::MAX by {
        pixel_in_frame(width, height, labels.len() as int, i);
    }
    total_bounded(labels, xs, r, k, u32::MAX as int);
    total_bounded(labels, ys, r, k, u32::MAX as int);
}

/// The parts below `m` of a label map.
fn describe_parts(labels: &[Option<usize>], m: usize, width: u32, height: u32) -> (parts: Vec<
    SubCandidate,
>)
    requires
        frame(width, height, labels@.len() as int),
        forall|i: int|
            #![trigger labels@[i]]
            0 <= i < labels@.len() && labels@[i] is Some ==> labels@[i]->Some_0 < m,
    ensures
        parts@.len() == m,
        forall|t: int|
            #![trigger parts@[t]]
            0 <= t < m ==> parts@[t].describes(labels@, t, width as int, labels@.len() as int),
{
    let n = labels.len();
    let mut parts: Vec<SubCandidate> = Vec::new();
    let mut t: usize = 0;
    while t < m
        invariant
            t <= m,
            parts@.len() == t,
            forall|q: int|
                #![trigger parts@[q]]
                0 <= q < t ==> parts@[q].describes(labels@, q, width as int, 0),
        decreases m - t,
    {
        parts.push(SubCandidate::new(width));
        t += 1;
    }
    let mut i: usize = 0;
    while i < n
        invariant
            i <= n,
            n == labels@.len(),
            frame(width, height, n as int),
            parts@.len() == m,
            forall|i: int|
                #![trigger labels@[i]]
                0 <= i < n && labels@[i] is Some ==> labels@[i]->Some_0 < m,
            forall|q: int|
                #![trigger parts@[q]]
                0 <= q < m ==> parts@[q].describes(labels@, q, width as int, i as int),
        decreases n - i,
    {
        proof {
            pixel_in_frame(width, height, n as int, i as int);
        }
        let ghost before = parts@;
        if let Some(t) = labels[i] {
            proof {
                assert(parts@[t as int].describes(labels@, t as int, width as int, i as int));
                moments_fit(labels@, t as int, width, height, i as int);
            }
            let x = (i % (width as usize)) as u32;
            let y = (i / (width as usize)) as u32;
            let grown = parts[t].with_pixel(x, y);
            parts.set(t, grown);
        }
        proof {
            assert forall|q: int| #![trigger parts@[q]] 0 <= q < m implies parts@[q].describes(
                labels@,
                q,
                width as int,
                i + 1,
            ) by {
                assert(before[q].describes(labels@, q, width as int, i as int));
            }
        }
        i += 1;
    }
    parts
}

/// The moments of a list of parts.
spec fn moments_list(parts: Seq<SubCandidate>) -> Seq<Moments> {
    Seq::new(parts.len(), |t: int| parts[t].moments)
}

proof fn nearest_agrees<D: Fn(Moments, Moments) -> Scalar>(
    distance: D,
    from: Moments,
    a: Seq<Moments>,
    b: Seq<Moments>,
    targets: Seq<usize>,
    k: int,
)
    requires
        0 <= k <= targets.len(),
        forall|q: int|
            #![trigger targets[q]]
            0 <= q < targets.len() ==> a[targets[q] as int] == b[targets[q] as int],
    ensures
        nearest(distance, from, a, targets, k) == nearest(distance, from, b, targets, k),
    decreases k,
{
    if k > 0 {
        nearest_agrees(distance, from, a, b, targets, k - 1);
        assert(a[targets[k - 1] as int] == b[targets[k - 1] as int]);
    }
}

proof fn nearest_is_target<D: Fn(Moments, Moments) -> Scalar>(
    distance: D,
    from: Moments,
    ms: Seq<Moments>,
    targets: Seq<usize>,
    k: int,
)
    requires
        0 <= k <= targets.len(),
    ensures
        nearest(distance, from, ms, targets, k).0 is Some ==> {
            let t = nearest(distance, from, ms, targets, k).0->Some_0;
            0 <= t <= usize::MAX && targets.contains(t as usize)
        },
    decreases k,
{
    if k > 0 {
        nearest_is_target(distance, from, ms, targets, k - 1);
        assert(targets.contains(targets[k - 1]));
    }
}

/// The nearest of `targets` to `from`.
fn nearest_part<D: Fn(Moments, Moments) -> Scalar>(
    distance: &D,
    from: Moments,
    parts: &Vec<SubCandidate>,
    targets: &Vec<usize>,
) -> (r: Option<usize>)
    requires
        is_metric(*distance),
        forall|k: int|
            #![trigger targets@[k]]
            0 <= k < targets@.len() ==> targets@[k] < parts@.len(),
    ensures
        match nearest(
            *distance,
            from,
            moments_list(parts@),
            targets@,
            targets@.len() as int,
        ).0 {
            Some(t) => r is Some && r->Some_0 == t,
            None => r is None,
        },
{
    let mut best: Option<usize> = None;
    let mut best_dist = Scalar::new(MAX_BITS);
    let mut k: usize = 0;
    while k < targets.len()
        invariant
            k <= targets@.len(),
            is_metric(*distance),
            forall|k: int|
                #![trigger targets@[k]]
                0 <= k < targets@.len() ==> targets@[k] < parts@.len(),
            ({
                let now = nearest(*distance, from, moments_list(parts@), targets@, k as int);
                &&& best_dist == now.1
                &&& match now.0 {
                    Some(t) => best is Some && best->Some_0 == t,
                    None => best is None,
                }
            }),
        decreases targets@.len() - k,
    {
        let t = targets[k];
        let to = parts[t].moments;
        let d = (*distance)(from, to);
        assert(d == apart(*distance, from, to));
        assert(moments_list(parts@)[t as int] == to);
        if d.less(&best_dist) {
            best_dist = d;
            best = Some(t);
        }
        k += 1;
    }
    best
}

/// The flags mark the targets.
spec fn flags_targets(flags: Seq<bool>, targets: Seq<usize>, m: int) -> bool {
    &&& flags.len() == m
    &&& forall|t: int|
        #![trigger flags[t]]
        0 <= t < m ==> (flags[t] <==> targets.contains(t as usize))
    &&& forall|k: int| #![trigger targets[k]] 0 <= k < targets.len() ==> targets[k] < m
}

/// Part `t` is described as it stands in `labels`.
spec fn part_current(
    parts: Seq<SubCandidate>,
    labels: Seq<Option<usize>>,
    t: int,
    w: int,
) -> bool {
    parts[t].describes(labels, t, w, labels.len() as int)
}

/// Part `s` goes over to `to`, if anywhere; targets go nowhere.
spec fn goes_to<D: Fn(Moments, Moments) -> Scalar>(
    distance: D,
    first: Seq<Option<usize>>,
    targets: Seq<usize>,
    m: int,
    w: int,
    s: int,
    to: Option<usize>,
) -> bool {
    if targets.contains(s as usize) {
        to is None
    } else {
        match absorber(
            distance,
            after_absorbing(distance, first, targets, m, w, s),
            s,
            targets,
            m,
            w,
        ) {
            Some(t) => to is Some && to->Some_0 == t && targets.contains(to->Some_0),
            None => to is None,
        }
    }
}

/// Hands every small part over to the nearest target in turn. Gives where each
/// part went.
fn absorb_parts<D: Fn(Moments, Moments) -> Scalar>(
    distance: &D,
    parts: &mut Vec<SubCandidate>,
    targets: &Vec<usize>,
    is_target: &Vec<bool>,
    width: u32,
    height: u32,
    Ghost(first): Ghost<Seq<Option<usize>>>,
) -> (goes: Vec<Option<usize>>)
    requires
        is_metric(*distance),
        frame(width, height, first.len() as int),
        flags_targets(is_target@, targets@, old(parts)@.len() as int),
        forall|t: int|
            #![trigger old(parts)@[t]]
            0 <= t < old(parts)@.len() ==> part_current(old(parts)@, first, t, width as int),
    ensures
        final(parts)@.len() == old(parts)@.len(),
        goes@.len() == old(parts)@.len(),
        ({
            let m = old(parts)@.len() as int;
            let w = width as int;
            let last = after_absorbing(*distance, first, targets@, m, w, m);
            &&& last.len() == first.len()
            &&& forall|t: int|
                #![trigger final(parts)@[t]]
                0 <= t < m ==> if is_target@[t] {
                    part_current(final(parts)@, last, t, w)
                } else {
                    final(parts)@[t] == old(parts)@[t]
                }
            &&& forall|s: int|
                #![trigger goes@[s]]
                0 <= s < m ==> goes_to(*distance, first, targets@, m, w, s, goes@[s])
        }),
{
    let m = parts.len();
    let ghost w = width as int;
    let ghost start = parts@;
    let mut goes: Vec<Option<usize>> = Vec::new();
    let mut k: usize = 0;
    while k < m
        invariant
            k <= m,
            m == parts@.len(),
            m == start.len(),
            w == width,
            is_metric(*distance),
            frame(width, height, first.len() as int),
            flags_targets(is_target@, targets@, m as int),
            goes@.len() == k,
            after_absorbing(*distance, first, targets@, m as int, w, k as int).len()
                == first.len(),
            forall|t: int|
                #![trigger parts@[t]]
                0 <= t < m ==> {
                    &&& is_target@[t] || t >= k ==> part_current(
                        parts@,
                        after_absorbing(*distance, first, targets@, m as int, w, k as int),
                        t,
                        w,
                    )
                    &&& !is_target@[t] ==> parts@[t] == start[t]
                },
            forall|s: int|
                #![trigger goes@[s]]
                0 <= s < k ==> goes_to(*distance, first, targets@, m as int, w, s, goes@[s]),
        decreases m - k,
    {
        let ghost labels = after_absorbing(*distance, first, targets@, m as int, w, k as int);
        let ghost next = after_absorbing(*distance, first, targets@, m as int, w, k + 1);
        let ghost before = parts@;
        if is_target[k] {
            goes.push(None);
            proof {
                assert(targets@.contains(k));
                assert(next == labels);
                assert forall|t: int| #![trigger parts@[t]] 0 <= t < m && (is_target@[t] || t >= k
                    + 1) implies part_current(parts@, next, t, w) by {
                    assert(before[t] == parts@[t]);
                }
            }
        } else {
            let own = parts[k];
            proof {
                assert(part_current(before, labels, k as int, w));
                assert(own.moments == moments_of(labels, k as int, w));
                assert forall|q: int|
                    #![trigger targets@[q]]
                    0 <= q < targets@.len() implies moments_list(before)[targets@[q] as int]
                    == all_moments(labels, m as int, w)[targets@[q] as int] by {
                    let t = targets@[q] as int;
                    assert(targets@.contains(targets@[q]));
                    assert(is_target@[t]);
                    assert(before[t] == parts@[t]);
                    assert(part_current(before, labels, t, w));
                }
                nearest_agrees(
                    *distance,
                    own.moments,
                    moments_list(before),
                    all_moments(labels, m as int, w),
                    targets@,
                    targets@.len() as int,
                );
                nearest_is_target(
                    *distance,
                    own.moments,
                    moments_list(before),
                    targets@,
                    targets@.len() as int,
                );
            }
            let found = nearest_part(distance, own.moments, parts, targets);
            if let Some(t) = found {
                proof {
                    assert(targets@.contains(t));
                    assert(is_target@[t as int]);
                    assert(before[t as int] == parts@[t as int]);
                    assert(part_current(before, labels, t as int, w));
                    let h = handed_over(labels, k as int, t as int);
                    let n = labels.len() as int;
                    handed_over_sums(
                        labels,
                        columns(w, labels.len()),
                        k as int,
                        t as int,
                        0,
                        n,
                        w,
                    );
                    handed_over_sums(
                        labels,
                        rows(w, labels.len()),
                        k as int,
                        t as int,
                        0,
                        n,
                        u32::MAX as int,
                    );
                    moments_fit(h, t as int, width, height, n);
                }
                let joined = parts[t].with_part(&own);
                parts.set(t, joined);
                goes.push(Some(t));
                proof {
                    assert(next == handed_over(labels, k as int, t as int));
                    assert forall|q: int|
                        #![trigger parts@[q]]
                        0 <= q < m && (is_target@[q] || q >= k + 1) implies part_current(
                        parts@,
                        next,
                        q,
                        w,
                    ) by {
                        assert(part_current(before, labels, q, w)) by {
                            assert(before[q] == before[q]);
                        }
                        handed_over_part(
                            labels,
                            k as int,
                            t as int,
                            q,
                            w,
                            own,
                            before[t as int],
                            before[q],
                            joined,
                        );
                    }
                }
            } else {
                goes.push(None);
                proof {
                    assert(next == labels);
                    assert forall|t: int| #![trigger parts@[t]] 0 <= t < m && (is_target@[t] || t
                        >= k + 1) implies part_current(parts@, next, t, w) by {
                        assert(before[t] == parts@[t]);
                    }
                }
            }
        }
        k += 1;
    }
    goes
}

/// The pixels of region `id`, which of them have a strong edge, and whether any
/// has.
fn find_strong(labels: &[Option<usize>], id: usize, edge: &[Scalar], limit: Scalar) -> (r: (
    Vec<usize>,
    Vec<bool>,
    bool,
))
    requires
        edge@.len() == labels@.len(),
    ensures
        r.1@ == strong_pixels(labels@, id as int, edge@, limit),
        r.2 == r.1@.contains(true),
        forall|k: int|
            #![trigger r.0@[k]]
            0 <= k < r.0@.len() ==> r.0@[k] < labels@.len() && carries(
                labels@,
                id as int,
                r.0@[k] as int,
            ),
        forall|i: int|
            #![trigger labels@[i]]
            0 <= i < labels@.len() && carries(labels@, id as int, i) ==> r.0@.contains(i as usize),
{
    let n = labels.len();
    let mut pixels: Vec<usize> = Vec::new();
    let mut strong: Vec<bool> = Vec::new();
    let mut any = false;
    let ghost goal = strong_pixels(labels@, id as int, edge@, limit);
    let mut i: usize = 0;
    while i < n
        invariant
            i <= n,
            n == labels@.len(),
            edge@.len() == n,
            goal == strong_pixels(labels@, id as int, edge@, limit),
            strong@.len() == i,
            forall|k: int| #![trigger strong@[k]] 0 <= k < i ==> strong@[k] == goal[k],
            any == strong@.contains(true),
            forall|k: int|
                #![trigger pixels@[k]]
                0 <= k < pixels@.len() ==> pixels@[k] < i && carries(
                    labels@,
                    id as int,
                    pixels@[k] as int,
                ),
            forall|q: int|
                #![trigger labels@[q]]
                0 <= q < i && carries(labels@, id as int, q) ==> pixels@.contains(q as usize),
        decreases n - i,
    {
        let here: bool = match labels[i] {
            Some(r) => r == id,
            None => false,
        };
        let ghost pixels0 = pixels@;
        let ghost strong0 = strong@;
        let flag: bool = here && limit.at_most(&edge[i]);
        if here {
            pixels.push(i);
        }
        strong.push(flag);
        proof {
            assert(flag == goal[i as int]);
            if flag {
                assert(strong@[i as int]);
            } else if strong@.contains(true) {
                let k = choose|k: int| 0 <= k < strong@.len() && strong@[k];
                assert(strong0[k]);
            }
            if any {
                let k = choose|k: int| 0 <= k < strong0.len() && strong0[k];
                assert(strong@[k]);
            }
            assert forall|q: int|
                #![trigger labels@[q]]
                0 <= q < i + 1 && carries(labels@, id as int, q) implies pixels@.contains(
                q as usize,
            ) by {
                if q < i {
                    let k = choose|k: int| 0 <= k < pixels0.len() && pixels0[k] == q as usize;
                    assert(pixels@[k] == q as usize);
                } else {
                    assert(pixels@[pixels@.len() - 1] == q as usize);
                }
            }
        }
        any = any || flag;
        i += 1;
    }
    assert(strong@ =~= goal);
    (pixels, strong, any)
}

/// Every number below the number of components is that of some pixel.
proof fn component_attained(part: Seq<bool>, w: int, q: int) -> (i: int)
    requires
        w > 0,
        0 <= q < part_leaders(components(part, w), part, part.len() as int),
    ensures
        0 <= i < part.len(),
        part[i],
        component_numbers(part, w)[i] == q,
{
    components_are_classes(part, w);
    leader_at(components(part, w), part, part.len() as int, q)
}

proof fn leader_at(c: Seq<int>, part: Seq<bool>, k: int, q: int) -> (i: int)
    requires
        0 <= k <= part.len(),
        0 <= q < part_leaders(c, part, k),
    ensures
        0 <= i < k,
        part[i],
        c[i] == i,
        part_leaders(c, part, i) == q,
    decreases k,
{
    if q < part_leaders(c, part, k - 1) {
        leader_at(c, part, k - 1, q)
    } else {
        k - 1
    }
}

/// Every part of a region with a calm pixel has pixels of its own.
pub proof fn parts_are_inhabited(
    labels: Seq<Option<usize>>,
    id: int,
    edge: Seq<Scalar>,
    limit: Scalar,
    w: int,
    s: int,
)
    requires
        w > 0,
        labels.len() <= usize::MAX,
        0 <= s < part_count(labels, id, edge, limit, w),
    ensures
        area_of(parts(labels, id, edge, limit, w), s, labels.len() as int) > 0,
{
    let calm = calm_pixels(labels, id, edge, limit, w);
    let i = component_attained(calm, w, s);
    component_numbers_dense(calm, w, i, i);
    let first = parts(labels, id, edge, limit, w);
    leaders_within(components(calm, w), calm, calm.len() as int);
    assert(first[i] == Some(s as usize));
    assert(carries(first, s, i));
    area_positive(first, s, labels.len() as int);
}

proof fn leaders_within(c: Seq<int>, part: Seq<bool>, k: int)
    requires
        0 <= k,
    ensures
        part_leaders(c, part, k) <= k,
    decreases k,
{
    if k > 0 {
        leaders_within(c, part, k - 1);
    }
}

/// The parts of the region and how many numbers they use.
fn number_parts(
    labels: &[Option<usize>],
    id: usize,
    pixels: &[usize],
    barrier: &[bool],
    width: u32,
    height: u32,
    Ghost(edge): Ghost<Seq<Scalar>>,
    Ghost(limit): Ghost<Scalar>,
) -> (r: (Vec<Option<usize>>, usize))
    requires
        frame(width, height, labels@.len() as int),
        labels@.len() > 0,
        barrier@ == dilated(strong_pixels(labels@, id as int, edge, limit), width as int, 1),
        forall|k: int|
            #![trigger pixels@[k]]
            0 <= k < pixels@.len() ==> pixels@[k] < labels@.len() && carries(
                labels@,
                id as int,
                pixels@[k] as int,
            ),
        forall|i: int|
            #![trigger labels@[i]]
            0 <= i < labels@.len() && carries(labels@, id as int, i) ==> pixels@.contains(
                i as usize,
            ),
    ensures
        r.0@ == parts(labels@, id as int, edge, limit, width as int),
        r.1 == if part_count(labels@, id as int, edge, limit, width as int) >= 1 {
            part_count(labels@, id as int, edge, limit, width as int)
        } else {
            1
        },
        forall|i: int|
            #![trigger r.0@[i]]
            0 <= i < r.0@.len() && r.0@[i] is Some ==> r.0@[i]->Some_0 < r.1,
{
    let n = labels.len();
    let ghost w = width as int;
    let ghost calm = calm_pixels(labels@, id as int, edge, limit, w);
    let numbers = ccl_within_region(pixels, barrier, width, height);
    proof {
        pixel_in_frame(width, height, n as int, 0);
        assert forall|i: int| 0 <= i < n implies participants(pixels@, barrier@)[i] == calm[i] by {
            if carries(labels@, id as int, i) {
                assert(labels@[i] is Some);
                assert(pixels@.contains(i as usize));
            } else if pixels@.contains(i as usize) {
                let k = choose|k: int| 0 <= k < pixels@.len() && pixels@[k] == i as usize;
                assert(carries(labels@, id as int, pixels@[k] as int));
            }
        }
        assert(participants(pixels@, barrier@) =~= calm);
        leaders_within(components(calm, w), calm, n as int);
    }
    let ghost m = part_count(labels@, id as int, edge, limit, w);
    let ghost goal = parts(labels@, id as int, edge, limit, w);
    let mut first: Vec<Option<usize>> = Vec::new();
    let mut top: usize = 0;
    let mut i: usize = 0;
    while i < n
        invariant
            i <= n,
            n == labels@.len(),
            w == width,
            w > 0,
            numbers@.len() == n,
            calm == calm_pixels(labels@, id as int, edge, limit, w),
            goal == parts(labels@, id as int, edge, limit, w),
            m == part_count(labels@, id as int, edge, limit, w),
            0 <= m <= n,
            forall|k: int|
                #![trigger numbers@[k]]
                0 <= k < n ==> numbers@[k] == component_numbers(calm, w)[k],
            first@.len() == i,
            forall|k: int|
                #![trigger first@[k]]
                0 <= k < i ==> first@[k] == goal[k],
            forall|k: int| #![trigger numbers@[k]] 0 <= k < i ==> numbers@[k] <= top,
            top == 0 || top < m,
        decreases n - i,
    {
        let here: bool = match labels[i] {
            Some(r) => r == id,
            None => false,
        };
        proof {
            if calm[i as int] {
                component_numbers_dense(calm, w, i as int, i as int);
            }
        }
        if numbers[i] > top {
            top = numbers[i];
        }
        if here {
            first.push(Some(numbers[i]));
        } else {
            first.push(None);
        }
        i += 1;
    }
    proof {
        assert(first@ =~= goal);
        if m >= 1 {
            let k = component_attained(calm, w, m - 1);
            assert(numbers@[k] == m - 1);
        }
        assert forall|i: int|
            #![trigger first@[i]]
            0 <= i < first@.len() && first@[i] is Some implies first@[i]->Some_0 < top + 1 by {
            assert(numbers@[i] <= top);
        }
    }
    (first, top + 1)
}

/// The parts that are large enough, and a flag for each part.
fn pick_survivors(
    parts: &Vec<SubCandidate>,
    min_area: usize,
    Ghost(first): Ghost<Seq<Option<usize>>>,
    Ghost(w): Ghost<int>,
) -> (r: (Vec<usize>, Vec<bool>))
    requires
        forall|t: int|
            #![trigger parts@[t]]
            0 <= t < parts@.len() ==> part_current(parts@, first, t, w),
    ensures
        r.0@ == survivors(first, min_area as int, parts@.len() as int),
        flags_targets(r.1@, r.0@, parts@.len() as int),
{
    let m = parts.len();
    let mut targets: Vec<usize> = Vec::new();
    let mut flags: Vec<bool> = Vec::new();
    let mut t: usize = 0;
    while t < m
        invariant
            t <= m,
            m == parts@.len(),
            forall|t: int|
                #![trigger parts@[t]]
                0 <= t < m ==> part_current(parts@, first, t, w),
            targets@ == survivors(first, min_area as int, t as int),
            flags@.len() == t,
            forall|q: int|
                #![trigger flags@[q]]
                0 <= q < t ==> flags@[q] == (area_of(first, q, first.len() as int) >= min_area),
        decreases m - t,
    {
        assert(part_current(parts@, first, t as int, w)) by {
            assert(parts@[t as int] == parts@[t as int]);
        }
        let big: bool = parts[t].moments.count >= min_area;
        if big {
            targets.push(t);
        }
        flags.push(big);
        t += 1;
    }
    proof {
        survivors_listed(first, min_area as int, m as int);
        assert forall|t: int| #![trigger flags@[t]] 0 <= t < m implies (flags@[t]
            <==> targets@.contains(t as usize)) by {
            if targets@.contains(t as usize) {
                let k = choose|k: int| 0 <= k < targets@.len() && targets@[k] == t as usize;
                assert(area_of(first, targets@[k] as int, first.len() as int) >= min_area);
            }
        }
    }
    (targets, flags)
}

/// Where each part's pixels are listed in the end.
fn list_parts<D: Fn(Moments, Moments) -> Scalar>(
    targets: &Vec<usize>,
    is_target: &Vec<bool>,
    goes: &Vec<Option<usize>>,
    distance: &D,
    Ghost(first): Ghost<Seq<Option<usize>>>,
    Ghost(w): Ghost<int>,
    Ghost(min_area): Ghost<int>,
) -> (listed: Vec<Option<usize>>)
    requires
        targets@ == survivors(first, min_area, goes@.len() as int),
        flags_targets(is_target@, targets@, goes@.len() as int),
        forall|s: int|
            #![trigger goes@[s]]
            0 <= s < goes@.len() ==> goes_to(
                *distance,
                first,
                targets@,
                goes@.len() as int,
                w,
                s,
                goes@[s],
            ),
    ensures
        listed@.len() == goes@.len(),
        forall|s: int|
            #![trigger listed@[s]]
            0 <= s < listed@.len() ==> match listed_under(
                *distance,
                first,
                targets@,
                goes@.len() as int,
                w,
                s,
            ) {
                Some(q) => listed@[s] is Some && listed@[s]->Some_0 == q && q < targets@.len(),
                None => listed@[s] is None,
            },
{
    let m = goes.len();
    proof {
        survivors_listed(first, min_area, m as int);
    }
    let mut index: Vec<Option<usize>> = Vec::new();
    let mut k: usize = 0;
    while k < m
        invariant
            k <= m,
            index@.len() == k,
            forall|t: int| #![trigger index@[t]] 0 <= t < k ==> index@[t] is None,
        decreases m - k,
    {
        index.push(None);
        k += 1;
    }
    let mut q: usize = 0;
    while q < targets.len()
        invariant
            q <= targets@.len(),
            index@.len() == m,
            forall|k: int| #![trigger targets@[k]] 0 <= k < targets@.len() ==> targets@[k] < m,
            forall|k: int, q: int|
                #![trigger targets@[k], targets@[q]]
                0 <= k < q < targets@.len() ==> targets@[k] < targets@[q],
            forall|k: int|
                #![trigger targets@[k]]
                0 <= k < q ==> index@[targets@[k] as int] is Some && index@[targets@[k] as int]->Some_0
                    == k,
        decreases targets@.len() - q,
    {
        index.set(targets[q], Some(q));
        q += 1;
    }
    let mut listed: Vec<Option<usize>> = Vec::new();
    let mut s: usize = 0;
    while s < m
        invariant
            s <= m,
            m == goes@.len(),
            flags_targets(is_target@, targets@, m as int),
            index@.len() == m,
            forall|k: int, q: int|
                #![trigger targets@[k], targets@[q]]
                0 <= k < q < targets@.len() ==> targets@[k] < targets@[q],
            forall|k: int|
                #![trigger targets@[k]]
                0 <= k < targets@.len() ==> index@[targets@[k] as int] is Some
                    && index@[targets@[k] as int]->Some_0 == k,
            forall|s: int|
                #![trigger goes@[s]]
                0 <= s < m ==> goes_to(*distance, first, targets@, m as int, w, s, goes@[s]),
            listed@.len() == s,
            forall|z: int|
                #![trigger listed@[z]]
                0 <= z < s ==> match listed_under(*distance, first, targets@, m as int, w, z) {
                    Some(q) => listed@[z] is Some && listed@[z]->Some_0 == q && q < targets@.len(),
                    None => listed@[z] is None,
                },
        decreases m - s,
    {
        assert(goes_to(*distance, first, targets@, m as int, w, s as int, goes@[s as int]));
        if is_target[s] {
            proof {
                assert(targets@.contains(s));
                target_index(targets@, s);
                let k = targets@.index_of(s);
                assert(index@[targets@[k] as int]->Some_0 == k);
            }
            listed.push(index[s]);
        } else {
            assert(!targets@.contains(s));
            match goes[s] {
                Some(t) => {
                    proof {
                        target_index(targets@, t);
                        let k = targets@.index_of(t);
                        assert(targets@[k] < m);
                        assert(index@[targets@[k] as int]->Some_0 == k);
                    }
                    listed.push(index[t]);
                },
                None => {
                    listed.push(None);
                },
            }
        }
        s += 1;
    }
    listed
}

proof fn target_index(targets: Seq<usize>, t: usize)
    requires
        targets.contains(t),
    ensures
        0 <= targets.index_of(t) < targets.len(),
        targets[targets.index_of(t)] == t,
{
}

/// Splits a region along the strong edges inside it.
///
/// Gives the new regions and, for each pixel of the region, the number of its
/// new region; a region that does not split is given back alone, with no pixel
/// renumbered. `distance` measures how far apart two centroids are.
pub fn split_region<D: Fn(Moments, Moments) -> Scalar>(
    region: &Region,
    labels: &[Option<usize>],
    edge: &[Scalar],
    width: u32,
    height: u32,
    limit: Scalar,
    min_area: usize,
    distance: &D,
) -> (r: (Vec<Region>, Vec<Option<usize>>))
    requires
        frame(width, height, labels@.len() as int),
        edge@.len() == labels@.len(),
        is_metric(*distance),
    ensures
        r.0@ == split_regions(
            *region,
            labels@,
            edge@,
            limit,
            min_area as int,
            width as int,
            *distance,
        ),
        r.1@ == split_labels(
            *region,
            labels@,
            edge@,
            limit,
            min_area as int,
            width as int,
            *distance,
        ),
        r.0@.len() > 1 ==> forall|q: int|
            #![trigger r.0@[q]]
            0 <= q < r.0@.len() ==> r.0@[q].area == area_of(r.1@, q, labels@.len() as int),
{
    let n = labels.len();
    let ghost w = width as int;
    let id = region.id;
    let (pixels, strong, any) = find_strong(labels, id, edge, limit);
    if !any {
        return keep_whole(region, n);
    }
    let mut barrier = strong;
    dilate_boundary(&mut barrier, width, height, 1);
    let (first, m) = number_parts(
        labels,
        id,
        &pixels,
        &barrier,
        width,
        height,
        Ghost(edge@),
        Ghost(limit),
    );
    if m <= 1 {
        return keep_whole(region, n);
    }
    let mut candidates = describe_parts(&first, m, width, height);
    proof {
        assert forall|t: int|
            #![trigger candidates@[t]]
            0 <= t < m implies part_current(candidates@, first@, t, w) by {}
    }
    let (targets, is_target) = pick_survivors(&candidates, min_area, Ghost(first@), Ghost(w));
    if targets.len() <= 1 {
        return keep_whole(region, n);
    }
    let ghost initial = candidates@;
    let goes = absorb_parts(
        distance,
        &mut candidates,
        &targets,
        &is_target,
        width,
        height,
        Ghost(first@),
    );
    let listed = list_parts(
        &targets,
        &is_target,
        &goes,
        distance,
        Ghost(first@),
        Ghost(w),
        Ghost(min_area as int),
    );
    let ghost last = after_absorbing(*distance, first@, targets@, m as int, w, m as int);
    let ghost goal = split_regions(*region, labels@, edge@, limit, min_area as int, w, *distance);
    let mut regions: Vec<Region> = Vec::new();
    let mut q: usize = 0;
    while q < targets.len()
        invariant
            q <= targets@.len(),
            m == candidates@.len(),
            flags_targets(is_target@, targets@, m as int),
            w == width,
            last.len() == n,
            forall|t: int|
                #![trigger candidates@[t]]
                0 <= t < m && is_target@[t] ==> part_current(candidates@, last, t, w),
            regions@.len() == q,
            forall|k: int|
                #![trigger regions@[k]]
                0 <= k < q ==> regions@[k] == part_region(
                    last,
                    targets@[k] as int,
                    k,
                    region.cluster_id,
                    w,
                ),
        decreases targets@.len() - q,
    {
        let t = targets[q];
        proof {
            assert(targets@.contains(targets@[q as int]));
            assert(is_target@[t as int]);
            assert(part_current(candidates@, last, t as int, w)) by {
                assert(candidates@[t as int] == candidates@[t as int]);
            }
        }
        let c = candidates[t];
        regions.push(
            Region {
                id: q,
                cluster_id: region.cluster_id,
                area: c.moments.count,
                sum_x: c.moments.sum_x,
                sum_y: c.moments.sum_y,
                bbox: (c.min_x, c.min_y, c.max_x, c.max_y),
                pixel_count: c.moments.count,
            },
        );
        q += 1;
    }
    proof {
        assert(regions@ =~= goal);
    }
    let ghost map_goal = split_labels(*region, labels@, edge@, limit, min_area as int, w, *distance);
    let mut label_map: Vec<Option<usize>> = Vec::new();
    let mut i: usize = 0;
    while i < n
        invariant
            i <= n,
            n == first@.len(),
            n == map_goal.len(),
            listed@.len() == m,
            forall|i: int|
                #![trigger first@[i]]
                0 <= i < n && first@[i] is Some ==> first@[i]->Some_0 < m,
            forall|s: int|
                #![trigger listed@[s]]
                0 <= s < m ==> match listed_under(
                    *distance,
                    first@,
                    targets@,
                    m as int,
                    w,
                    s,
                ) {
                    Some(q) => listed@[s] is Some && listed@[s]->Some_0 == q && q < targets@.len(),
                    None => listed@[s] is None,
                },
            forall|k: int|
                #![trigger map_goal[k]]
                0 <= k < n ==> map_goal[k] == match first@[k] {
                    Some(s) => match listed_under(
                        *distance,
                        first@,
                        targets@,
                        m as int,
                        w,
                        s as int,
                    ) {
                        Some(q) => Some(q as usize),
                        None => None,
                    },
                    None => None,
                },
            label_map@.len() == i,
            forall|k: int| #![trigger label_map@[k]] 0 <= k < i ==> label_map@[k] == map_goal[k],
        decreases n - i,
    {
        match first[i] {
            Some(s) => {
                assert(map_goal[i as int] == listed@[s as int]);
                label_map.push(listed[s]);
            },
            None => {
                assert(map_goal[i as int] is None);
                label_map.push(None);
            },
        }
        i += 1;
    }
    proof {
        assert(label_map@ =~= map_goal);
        let k = choose|k: int|
            0 <= k < strong_pixels(labels@, id as int, edge@, limit).len() && strong_pixels(
                labels@,
                id as int,
                edge@,
                limit,
            )[k];
        pixel_in_frame(width, height, n as int, k);
        assert forall|q: int| #![trigger regions@[q]] 0 <= q < regions@.len() implies regions@[q].area
            == area_of(label_map@, q, n as int) by {
            split_areas_count(
                *region,
                labels@,
                edge@,
                limit,
                min_area as int,
                w,
                *distance,
                q,
            );
        }
    }
    (regions, label_map)
}

fn keep_whole(region: &Region, n: usize) -> (r: (Vec<Region>, Vec<Option<usize>>))
    ensures
        r.0@ == seq![*region],
        r.1@ == Seq::<Option<usize>>::new(n as nat, |i: int| None),
{
    let mut regions: Vec<Region> = Vec::new();
    regions.push(*region);
    let mut none: Vec<Option<usize>> = Vec::new();
    let mut i: usize = 0;
    while i < n
        invariant
            i <= n,
            none@.len() == i,
            forall|k: int| #![trigger none@[k]] 0 <= k < i ==> none@[k] is None,
        decreases n - i,
    {
        none.push(None);
        i += 1;
    }
    assert(none@ =~= Seq::<Option<usize>>::new(n as nat, |i: int| None));
    assert(regions@ =~= seq![*region]);
    (regions, none)
}

/// The pixels of a region that splits are numbered within its new regions.
pub proof fn split_labels_within<D: Fn(Moments, Moments) -> Scalar>(
    region: Region,
    labels: Seq<Option<usize>>,
    edge: Seq<Scalar>,
    limit: Scalar,
    min_area: int,
    w: int,
    distance: D,
    i: int,
)
    requires
        0 <= i < labels.len(),
    ensures
        ({
            let map = split_labels(region, labels, edge, limit, min_area, w, distance);
            let subs = split_regions(region, labels, edge, limit, min_area, w, distance);
            map[i] is Some ==> map[i]->Some_0 < subs.len() && carries(labels, region.id as int, i)
        }),
{
    let id = region.id as int;
    if splits(labels, id, edge, limit, min_area, w) {
        let first = parts(labels, id, edge, limit, w);
        let m = part_count(labels, id, edge, limit, w);
        let targets = survivors(first, min_area, m);
        if let Some(s) = first[i] {
            let then = after_absorbing(distance, first, targets, m, w, s as int);
            nearest_is_target(
                distance,
                moments_of(then, s as int, w),
                all_moments(then, m, w),
                targets,
                targets.len() as int,
            );
            if targets.contains(s) {
                target_index(targets, s);
            } else if let Some(t) = absorber(distance, then, s as int, targets, m, w) {
                target_index(targets, t as usize);
            }
        }
    }
}

/// The label that a pixel of part `s` has once the first `k` parts have been looked
/// at: that of the absorber from then on.
proof fn label_after_absorbing<D: Fn(Moments, Moments) -> Scalar>(
    distance: D,
    first: Seq<Option<usize>>,
    targets: Seq<usize>,
    m: int,
    w: int,
    k: int,
    i: int,
)
    requires
        0 <= k <= m <= usize::MAX,
        0 <= i < first.len(),
    ensures
        after_absorbing(distance, first, targets, m, w, k).len() == first.len(),
        ({
            let now = after_absorbing(distance, first, targets, m, w, k)[i];
            match first[i] {
                None => now is None,
                Some(s) => {
                    let then = after_absorbing(distance, first, targets, m, w, s as int);
                    let to = absorber(distance, then, s as int, targets, m, w);
                    if !targets.contains(s) && s < k && to is Some {
                        now == Some(to->Some_0 as usize) && targets.contains(to->Some_0 as usize)
                    } else {
                        now == Some(s)
                    }
                },
            }
        }),
    decreases k,
{
    if k > 0 {
        label_after_absorbing(distance, first, targets, m, w, k - 1, i);
        let before = after_absorbing(distance, first, targets, m, w, k - 1);
        nearest_is_target(
            distance,
            moments_of(before, k - 1, w),
            all_moments(before, m, w),
            targets,
            targets.len() as int,
        );
    }
}

/// A pixel's new number is that of the part that it ends up in.
proof fn number_is_part<D: Fn(Moments, Moments) -> Scalar>(
    region: Region,
    labels: Seq<Option<usize>>,
    edge: Seq<Scalar>,
    limit: Scalar,
    min_area: int,
    w: int,
    distance: D,
    q: int,
    i: int,
)
    requires
        w > 0,
        labels.len() <= usize::MAX,
        splits(labels, region.id as int, edge, limit, min_area, w),
        0 <= i < labels.len(),
        ({
            let first = parts(labels, region.id as int, edge, limit, w);
            let m = part_count(labels, region.id as int, edge, limit, w);
            0 <= q < survivors(first, min_area, m).len()
        }),
    ensures
        ({
            let id = region.id as int;
            let first = parts(labels, id, edge, limit, w);
            let m = part_count(labels, id, edge, limit, w);
            let targets = survivors(first, min_area, m);
            let last = after_absorbing(distance, first, targets, m, w, m);
            let map = split_labels(region, labels, edge, limit, min_area, w, distance);
            carries(map, q, i) == carries(last, targets[q] as int, i)
        }),
{
    let id = region.id as int;
    let first = parts(labels, id, edge, limit, w);
    let calm = calm_pixels(labels, id, edge, limit, w);
    let m = part_count(labels, id, edge, limit, w);
    leaders_within(components(calm, w), calm, calm.len() as int);
    let targets = survivors(first, min_area, m);
    let last = after_absorbing(distance, first, targets, m, w, m);
    let map = split_labels(region, labels, edge, limit, min_area, w, distance);
    survivors_listed(first, min_area, m);
    label_after_absorbing(distance, first, targets, m, w, m, i);
    assert(targets.contains(targets[q]));
    if let Some(s) = first[i] {
        part_number_below(labels, id, edge, limit, w, i);
        if targets.contains(s) {
            target_index(targets, s);
            let at = targets.index_of(s);
            assert(at == q <==> targets[at] == targets[q]);
        } else {
            let then = after_absorbing(distance, first, targets, m, w, s as int);
            nearest_is_target(
                distance,
                moments_of(then, s as int, w),
                all_moments(then, m, w),
                targets,
                targets.len() as int,
            );
            if let Some(t) = absorber(distance, then, s as int, targets, m, w) {
                target_index(targets, t as usize);
                let at = targets.index_of(t as usize);
                assert(at == q <==> targets[at] == targets[q]);
            }
        }
    }
}

/// The part of a pixel is one of the region's parts.
proof fn part_number_below(
    labels: Seq<Option<usize>>,
    id: int,
    edge: Seq<Scalar>,
    limit: Scalar,
    w: int,
    i: int,
)
    requires
        w > 0,
        labels.len() <= usize::MAX,
        part_count(labels, id, edge, limit, w) > 0,
        0 <= i < labels.len(),
        parts(labels, id, edge, limit, w)[i] is Some,
    ensures
        parts(labels, id, edge, limit, w)[i]->Some_0 < part_count(labels, id, edge, limit, w),
{
    let calm = calm_pixels(labels, id, edge, limit, w);
    leaders_within(components(calm, w), calm, calm.len() as int);
    if calm[i] {
        component_numbers_dense(calm, w, i, i);
    }
}

proof fn counted_alike(a: Seq<Option<usize>>, q: int, b: Seq<Option<usize>>, t: int, k: int)
    requires
        0 <= k <= a.len(),
        k <= b.len(),
        forall|i: int| 0 <= i < k ==> #[trigger] carries(a, q, i) == carries(b, t, i),
    ensures
        area_of(a, q, k) == area_of(b, t, k),
    decreases k,
{
    if k > 0 {
        counted_alike(a, q, b, t, k - 1);
        assert(carries(a, q, k - 1) == carries(b, t, k - 1));
    }
}

/// The area of each new region is the number of pixels with its number.
pub proof fn split_areas_count<D: Fn(Moments, Moments) -> Scalar>(
    region: Region,
    labels: Seq<Option<usize>>,
    edge: Seq<Scalar>,
    limit: Scalar,
    min_area: int,
    w: int,
    distance: D,
    q: int,
)
    requires
        w > 0,
        labels.len() <= usize::MAX,
        splits(labels, region.id as int, edge, limit, min_area, w),
        0 <= q < split_regions(region, labels, edge, limit, min_area, w, distance).len(),
    ensures
        split_regions(region, labels, edge, limit, min_area, w, distance)[q].area == area_of(
            split_labels(region, labels, edge, limit, min_area, w, distance),
            q,
            labels.len() as int,
        ),
{
    let id = region.id as int;
    let n = labels.len() as int;
    let first = parts(labels, id, edge, limit, w);
    let m = part_count(labels, id, edge, limit, w);
    let calm = calm_pixels(labels, id, edge, limit, w);
    leaders_within(components(calm, w), calm, calm.len() as int);
    let targets = survivors(first, min_area, m);
    let last = after_absorbing(distance, first, targets, m, w, m);
    let map = split_labels(region, labels, edge, limit, min_area, w, distance);
    assert forall|i: int| 0 <= i < n implies #[trigger] carries(map, q, i) == carries(
        last,
        targets[q] as int,
        i,
    ) by {
        number_is_part(region, labels, edge, limit, min_area, w, distance, q, i);
    }
    if n > 0 {
        label_after_absorbing(distance, first, targets, m, w, m, 0);
    } else {
        assert(!strong_pixels(labels, id, edge, limit).contains(true));
    }
    counted_alike(map, q, last, targets[q] as int, n);
    area_at_most(last, targets[q] as int, n);
}

proof fn area_at_most(labels: Seq<Option<usize>>, r: int, k: int)
    requires
        0 <= k,
    ensures
        area_of(labels, r, k) <= k,
    decreases k,
{
    if k > 0 {
        area_at_most(labels, r, k - 1);
    }
}

proof fn totals_alike(
    a: Seq<Option<usize>>,
    q: int,
    b: Seq<Option<usize>>,
    t: int,
    vals: Seq<int>,
    start: int,
    k: int,
)
    requires
        0 <= k,
        forall|i: int| 0 <= i < k ==> #[trigger] carries(a, q, i) == carries(b, t, i),
    ensures
        total_of(a, vals, q, k) == total_of(b, vals, t, k),
        min_over(a, vals, q, k, start) == min_over(b, vals, t, k, start),
        max_over(a, vals, q, k) == max_over(b, vals, t, k),
    decreases k,
{
    if k > 0 {
        totals_alike(a, q, b, t, vals, start, k - 1);
        assert(carries(a, q, k - 1) == carries(b, t, k - 1));
    }
}

proof fn extremes_bound(labels: Seq<Option<usize>>, vals: Seq<int>, q: int, start: int, k: int, i: int)
    requires
        0 <= i < k,
        carries(labels, q, i),
    ensures
        min_over(labels, vals, q, k, start) <= vals[i] <= max_over(labels, vals, q, k),
    decreases k,
{
    if i < k - 1 {
        extremes_bound(labels, vals, q, start, k - 1, i);
    }
}

/// The regions that a region splits into keep its cluster, and each sums up and
/// encloses the pixels that carry its number.
pub proof fn split_regions_describe_pixels<D: Fn(Moments, Moments) -> Scalar>(
    region: Region,
    labels: Seq<Option<usize>>,
    edge: Seq<Scalar>,
    limit: Scalar,
    min_area: int,
    width: u32,
    height: u32,
    distance: D,
    q: int,
    i: int,
)
    requires
        frame(width, height, labels.len() as int),
        splits(labels, region.id as int, edge, limit, min_area, width as int),
        0 <= q < split_regions(
            region,
            labels,
            edge,
            limit,
            min_area,
            width as int,
            distance,
        ).len(),
        0 <= i < labels.len(),
        split_labels(region, labels, edge, limit, min_area, width as int, distance)[i] == Some(
            q as usize,
        ),
    ensures
        ({
            let w = width as int;
            let n = labels.len();
            let map = split_labels(region, labels, edge, limit, min_area, w, distance);
            let r = split_regions(region, labels, edge, limit, min_area, w, distance)[q];
            &&& r.cluster_id == region.cluster_id
            &&& r.id == q
            &&& r.pixel_count == r.area
            &&& r.sum_x == total_of(map, Seq::new(n, |i: int| i % w), q, n as int) as u64
            &&& r.sum_y == total_of(map, Seq::new(n, |i: int| i / w), q, n as int) as u64
            &&& r.bbox.0 <= i % w <= r.bbox.2
            &&& r.bbox.1 <= i / w <= r.bbox.3
        }),
{
    let w = width as int;
    let id = region.id as int;
    let n = labels.len() as int;
    pixel_in_frame(width, height, n, i);
    let first = parts(labels, id, edge, limit, w);
    let m = part_count(labels, id, edge, limit, w);
    let calm = calm_pixels(labels, id, edge, limit, w);
    leaders_within(components(calm, w), calm, calm.len() as int);
    let targets = survivors(first, min_area, m);
    survivors_listed(first, min_area, m);
    let last = after_absorbing(distance, first, targets, m, w, m);
    let map = split_labels(region, labels, edge, limit, min_area, w, distance);
    label_after_absorbing(distance, first, targets, m, w, m, 0);
    assert forall|k: int| 0 <= k < n implies #[trigger] carries(map, q, k) == carries(
        last,
        targets[q] as int,
        k,
    ) by {
        number_is_part(region, labels, edge, limit, min_area, w, distance, q, k);
    }
    let xs = columns(w, labels.len());
    let ys = rows(w, labels.len());
    assert(xs =~= Seq::new(labels.len(), |i: int| i % w));
    assert(ys =~= Seq::new(labels.len(), |i: int| i / w));
    let t = targets[q] as int;
    totals_alike(map, q, last, t, xs, w, n);
    totals_alike(map, q, last, t, ys, u32::MAX as int, n);
    assert(carries(map, q, i));
    extremes_bound(last, xs, t, w, n, i);
    extremes_bound(last, ys, t, u32::MAX as int, n, i);
    box_fits(last, xs, t, w, n, u32::MAX as int);
    box_fits(last, ys, t, u32::MAX as int, n, u32::MAX as int);
}

proof fn box_fits(labels: Seq<Option<usize>>, vals: Seq<int>, q: int, start: int, k: int, most: int)
    requires
        0 <= k <= vals.len(),
        0 <= start <= most,
        forall|j: int| 0 <= j < k ==> 0 <= #[trigger] vals[j] <= most,
    ensures
        0 <= min_over(labels, vals, q, k, start) <= most,
        0 <= max_over(labels, vals, q, k) <= most,
    decreases k,
{
    if k > 0 {
        box_fits(labels, vals, q, start, k - 1, most);
    }
}

/// Every distance is a number below the greatest.
pub open spec fn all_near<D: Fn(Moments, Moments) -> Scalar>(distance: D) -> bool {
    forall|a: Moments, b: Moments| (#[trigger] apart(distance, a, b)).lt(Scalar { bits: MAX_BITS })
}

proof fn some_is_nearest<D: Fn(Moments, Moments) -> Scalar>(
    distance: D,
    from: Moments,
    ms: Seq<Moments>,
    targets: Seq<usize>,
    k: int,
)
    requires
        all_near(distance),
        1 <= k <= targets.len(),
    ensures
        nearest(distance, from, ms, targets, k).0 is Some,
    decreases k,
{
    if k > 1 {
        some_is_nearest(distance, from, ms, targets, k - 1);
    } else {
        assert(nearest(distance, from, ms, targets, 0).1 == (Scalar { bits: MAX_BITS }));
        assert(apart(distance, from, ms[targets[0] as int]).lt(Scalar { bits: MAX_BITS }));
    }
}

/// A region without a pixel at or above the limit stays as it is.
pub proof fn quiet_region_stays_whole<D: Fn(Moments, Moments) -> Scalar>(
    region: Region,
    labels: Seq<Option<usize>>,
    edge: Seq<Scalar>,
    limit: Scalar,
    min_area: int,
    w: int,
    distance: D,
)
    requires
        forall|i: int|
            #![trigger labels[i]]
            0 <= i < labels.len() && labels[i] == Some(region.id) ==> !limit.le(edge[i]),
    ensures
        split_regions(region, labels, edge, limit, min_area, w, distance) == seq![region],
{
    let strong = strong_pixels(labels, region.id as int, edge, limit);
    if strong.contains(true) {
        let i = choose|i: int| 0 <= i < strong.len() && strong[i];
        assert(labels[i] == Some(region.id));
    }
}

/// A pixel of the region is calm exactly where neither it nor a neighbour of the
/// region to the left, to the right, above or below is at or above the limit.
pub proof fn calm_away_from_strong(
    labels: Seq<Option<usize>>,
    id: usize,
    edge: Seq<Scalar>,
    limit: Scalar,
    width: u32,
    height: u32,
    i: int,
)
    requires
        frame(width, height, labels.len() as int),
        0 <= i < labels.len(),
        labels[i] == Some(id),
    ensures
        ({
            let w = width as int;
            let n = labels.len() as int;
            calm_pixels(labels, id as int, edge, limit, w)[i] <==> {
                &&& !limit.le(edge[i])
                &&& i % w > 0 && labels[i - 1] == Some(id) ==> !limit.le(edge[i - 1])
                &&& i % w + 1 < w && labels[i + 1] == Some(id) ==> !limit.le(edge[i + 1])
                &&& i >= w && labels[i - w] == Some(id) ==> !limit.le(edge[i - w])
                &&& i + w < n && labels[i + w] == Some(id) ==> !limit.le(edge[i + w])
            }
        }),
{
    let strong = strong_pixels(labels, id as int, edge, limit);
    one_step_adds_neighbours(strong, width, height, i);
    neighbour_coordinates(width, height, labels.len() as int, i);
}

/// Neighbouring calm pixels belong to one part.
pub proof fn calm_neighbours_share_part(
    labels: Seq<Option<usize>>,
    id: int,
    edge: Seq<Scalar>,
    limit: Scalar,
    w: int,
    i: int,
    j: int,
)
    requires
        w > 0,
        0 <= j < i < labels.len(),
        (j == i - 1 && i % w > 0) || j == i - w,
        calm_pixels(labels, id, edge, limit, w)[i],
        calm_pixels(labels, id, edge, limit, w)[j],
    ensures
        parts(labels, id, edge, limit, w)[i] is Some,
        parts(labels, id, edge, limit, w)[i] == parts(labels, id, edge, limit, w)[j],
{
    let calm = calm_pixels(labels, id, edge, limit, w);
    let edges = part_edges(calm, w, calm.len() as int);
    part_edges_are_links(calm, w, calm.len() as int);
    assert(edges.contains((i, j)));
    let k = choose|k: int| 0 <= k < edges.len() && edges[k] == (i, j);
    edge_ends_share_class(calm.len(), edges, k);
}

proof fn area_grows(a: Seq<Option<usize>>, b: Seq<Option<usize>>, t: int, k: int)
    requires
        0 <= k,
        forall|i: int| #![trigger a[i]] 0 <= i < k && carries(a, t, i) ==> carries(b, t, i),
    ensures
        area_of(a, t, k) <= area_of(b, t, k),
    decreases k,
{
    if k > 0 {
        area_grows(a, b, t, k - 1);
        assert(a[k - 1] == a[k - 1]);
    }
}

/// Every region that comes of a split has at least the least area.
pub proof fn split_regions_are_large<D: Fn(Moments, Moments) -> Scalar>(
    region: Region,
    labels: Seq<Option<usize>>,
    edge: Seq<Scalar>,
    limit: Scalar,
    min_area: int,
    w: int,
    distance: D,
    q: int,
)
    requires
        w > 0,
        labels.len() <= usize::MAX,
        split_regions(region, labels, edge, limit, min_area, w, distance).len() > 1,
        0 <= q < split_regions(region, labels, edge, limit, min_area, w, distance).len(),
    ensures
        split_regions(region, labels, edge, limit, min_area, w, distance)[q].area >= min_area,
{
    let id = region.id as int;
    let n = labels.len() as int;
    let first = parts(labels, id, edge, limit, w);
    let m = part_count(labels, id, edge, limit, w);
    let calm = calm_pixels(labels, id, edge, limit, w);
    leaders_within(components(calm, w), calm, calm.len() as int);
    let targets = survivors(first, min_area, m);
    let last = after_absorbing(distance, first, targets, m, w, m);
    survivors_listed(first, min_area, m);
    let t = targets[q] as int;
    assert(targets.contains(t as usize));
    assert forall|i: int| #![trigger first[i]] 0 <= i < n && carries(first, t, i) implies carries(
        last,
        t,
        i,
    ) by {
        label_after_absorbing(distance, first, targets, m, w, m, i);
    }
    area_grows(first, last, t, n);
    area_at_most(last, t, n);
    if n > 0 {
        label_after_absorbing(distance, first, targets, m, w, m, 0);
    }
}

/// Two large parts of a region with a strong pixel become different regions.
pub proof fn large_parts_are_told_apart<D: Fn(Moments, Moments) -> Scalar>(
    region: Region,
    labels: Seq<Option<usize>>,
    edge: Seq<Scalar>,
    limit: Scalar,
    min_area: int,
    w: int,
    distance: D,
    strong: int,
    i: int,
    j: int,
)
    requires
        w > 0,
        labels.len() <= usize::MAX,
        0 <= strong < labels.len(),
        labels[strong] == Some(region.id),
        limit.le(edge[strong]),
        0 <= i < labels.len(),
        0 <= j < labels.len(),
        calm_pixels(labels, region.id as int, edge, limit, w)[i],
        calm_pixels(labels, region.id as int, edge, limit, w)[j],
        ({
            let p = parts(labels, region.id as int, edge, limit, w);
            &&& p[i] != p[j]
            &&& area_of(p, p[i]->Some_0 as int, labels.len() as int) >= min_area
            &&& area_of(p, p[j]->Some_0 as int, labels.len() as int) >= min_area
        }),
    ensures
        split_regions(region, labels, edge, limit, min_area, w, distance).len() > 1,
        ({
            let map = split_labels(region, labels, edge, limit, min_area, w, distance);
            map[i] is Some && map[j] is Some && map[i] != map[j]
        }),
{
    let id = region.id as int;
    let first = parts(labels, id, edge, limit, w);
    let m = part_count(labels, id, edge, limit, w);
    let calm = calm_pixels(labels, id, edge, limit, w);
    leaders_within(components(calm, w), calm, calm.len() as int);
    component_numbers_dense(calm, w, i, j);
    component_numbers_dense(calm, w, j, i);
    let s = first[i]->Some_0;
    let t = first[j]->Some_0;
    let targets = survivors(first, min_area, m);
    survivors_listed(first, min_area, m);
    assert(s < m && t < m);
    assert(targets.contains(s) && targets.contains(t));
    let a = targets.index_of(s);
    let b = targets.index_of(t);
    assert(targets[a] == s && targets[b] == t);
    let marks = strong_pixels(labels, id, edge, limit);
    assert(marks[strong]);
}

/// Where distances lie below the greatest number, a part too small goes to a target
/// than which none is nearer, the first among equals.
pub proof fn crumbs_go_to_nearest<D: Fn(Moments, Moments) -> Scalar>(
    distance: D,
    from: Moments,
    ms: Seq<Moments>,
    targets: Seq<usize>,
    k: int,
    j: int,
)
    requires
        all_near(distance),
        0 <= j < k <= targets.len(),
    ensures
        nearest(distance, from, ms, targets, k).0 is Some,
        ({
            let (at, d) = nearest(distance, from, ms, targets, k);
            &&& d == apart(distance, from, ms[at->Some_0])
            &&& d.le(apart(distance, from, ms[targets[j] as int]))
            &&& exists|i: int| 0 <= i < k && #[trigger] targets[i] == at->Some_0
        }),
    decreases k,
{
    assert(apart(distance, from, ms[targets[k - 1] as int]).lt(Scalar { bits: MAX_BITS }));
    assert(apart(distance, from, ms[targets[j] as int]).lt(Scalar { bits: MAX_BITS }));
    if k > 1 {
        crumbs_go_to_nearest(
            distance,
            from,
            ms,
            targets,
            k - 1,
            if j < k - 1 {
                j
            } else {
                0
            },
        );
        let (at, d) = nearest(distance, from, ms, targets, k - 1);
        assert(apart(distance, from, ms[at->Some_0]).lt(Scalar { bits: MAX_BITS }));
        let i = choose|i: int| 0 <= i < k - 1 && #[trigger] targets[i] == at->Some_0;
        assert(targets[i] == at->Some_0);
        assert(targets[k - 1] == targets[k - 1]);
    } else {
        assert(nearest(distance, from, ms, targets, 0).1 == (Scalar { bits: MAX_BITS }));
        assert(targets[0] == targets[0]);
    }
}

/// Exactly the parts of at least the least area survive, in order.
pub proof fn large_parts_survive(labels: Seq<Option<usize>>, min_area: int, m: int, r: int)
    requires
        0 <= r < m <= usize::MAX,
    ensures
        survivors(labels, min_area, m).contains(r as usize) <==> area_of(
            labels,
            r,
            labels.len() as int,
        ) >= min_area,
{
    survivors_listed(labels, min_area, m);
    let t = survivors(labels, min_area, m);
    if t.contains(r as usize) {
        let k = choose|k: int| 0 <= k < t.len() && t[k] == r as usize;
        assert(area_of(labels, t[k] as int, labels.len() as int) >= min_area);
    }
}

/// Where a region splits, exactly its pixels get new numbers, all of new regions.
pub proof fn split_keeps_pixels<D: Fn(Moments, Moments) -> Scalar>(
    region: Region,
    labels: Seq<Option<usize>>,
    edge: Seq<Scalar>,
    limit: Scalar,
    min_area: int,
    w: int,
    distance: D,
    i: int,
)
    requires
        all_near(distance),
        splits(labels, region.id as int, edge, limit, min_area, w),
        0 <= i < labels.len(),
    ensures
        split_labels(region, labels, edge, limit, min_area, w, distance)[i] is Some <==> carries(
            labels,
            region.id as int,
            i,
        ),
{
    let id = region.id as int;
    let first = parts(labels, id, edge, limit, w);
    let m = part_count(labels, id, edge, limit, w);
    let targets = survivors(first, min_area, m);
    split_labels_within(region, labels, edge, limit, min_area, w, distance, i);
    if let Some(s) = first[i] {
        let then = after_absorbing(distance, first, targets, m, w, s as int);
        some_is_nearest(
            distance,
            moments_of(then, s as int, w),
            all_moments(then, m, w),
            targets,
            targets.len() as int,
        );
    }
}

/// The areas of the regions that a region splits into add up to the number of its
/// pixels.
pub proof fn split_areas_add_up<D: Fn(Moments, Moments) -> Scalar>(
    region: Region,
    labels: Seq<Option<usize>>,
    edge: Seq<Scalar>,
    limit: Scalar,
    min_area: int,
    w: int,
    distance: D,
)
    requires
        all_near(distance),
        splits(labels, region.id as int, edge, limit, min_area, w),
    ensures
        areas_sum(
            split_labels(region, labels, edge, limit, min_area, w, distance),
            split_regions(region, labels, edge, limit, min_area, w, distance).len() as int,
            labels.len() as int,
        ) == area_of(labels, region.id as int, labels.len() as int),
{
    let n = labels.len() as int;
    let map = split_labels(region, labels, edge, limit, min_area, w, distance);
    let subs = split_regions(region, labels, edge, limit, min_area, w, distance);
    assert forall|i: int| #![trigger map[i]] 0 <= i < n && map[i] is Some implies map[i]->Some_0
        < subs.len() by {
        split_labels_within(region, labels, edge, limit, min_area, w, distance, i);
    }
    areas_add_up(map, subs.len() as int, n);
    assert forall|i: int| 0 <= i < n implies (#[trigger] map[i] is Some) == carries(
        labels,
        region.id as int,
        i,
    ) by {
        split_keeps_pixels(region, labels, edge, limit, min_area, w, distance, i);
    }
    labelled_alike(map, labels, region.id as int, n);
}

proof fn labelled_alike(map: Seq<Option<usize>>, labels: Seq<Option<usize>>, r: int, k: int)
    requires
        0 <= k <= map.len(),
        forall|i: int| 0 <= i < k ==> (#[trigger] map[i] is Some) == carries(labels, r, i),
    ensures
        labelled(map, k) == area_of(labels, r, k),
    decreases k,
{
    if k > 0 {
        labelled_alike(map, labels, r, k - 1);
        assert((map[k - 1] is Some) == carries(labels, r, k - 1));
    }
}

} // verus!
