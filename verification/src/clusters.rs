//! Thinning out colour clusters and telling background from foreground by them.

use vstd::prelude::*;
use crate::partition::{all_pixels, all_pixels_of_runs, summarised, Cluster};
use crate::scalar::{Scalar, MAX_BITS};

verus! {

/// `distance` accepts every two summaries and always gives the same answer.
pub open spec fn is_distance<S, D: Fn(&S, &S) -> Scalar>(distance: D) -> bool {
    &&& forall|a: &S, b: &S| #[trigger] call_requires(distance, (a, b))
    &&& forall|a: &S, b: &S, r: Scalar, s: Scalar|
        #![trigger call_ensures(distance, (a, b), r), call_ensures(distance, (a, b), s)]
        call_ensures(distance, (a, b), r) && call_ensures(distance, (a, b), s) ==> r == s
}

/// The distance of two summaries.
pub open spec fn apart<S, D: Fn(&S, &S) -> Scalar>(distance: D, a: S, b: S) -> Scalar {
    choose|r: Scalar| call_ensures(distance, (&a, &b), r)
}

/// Cluster `j` may take in cluster `i`: it is another one and not itself too
/// small.
pub open spec fn may_take<S>(cs: Seq<Cluster<S>>, i: int, j: int, min_area: int) -> bool {
    j != i && cs[j].indices@.len() >= min_area
}

/// Among the first `k` clusters, the one nearest to cluster `i` that may take it
/// in, the first among equals, with its distance; only distances below the
/// greatest finite number count.
pub open spec fn nearest<S, D: Fn(&S, &S) -> Scalar>(
    distance: D,
    cs: Seq<Cluster<S>>,
    i: int,
    min_area: int,
    k: int,
) -> (Option<int>, Scalar)
    decreases k,
{
    if k <= 0 {
        (None, Scalar { bits: MAX_BITS })
    } else {
        let before = nearest(distance, cs, i, min_area, k - 1);
        let d = apart(distance, cs[i].summary, cs[k - 1].summary);
        if may_take(cs, i, k - 1, min_area) && d.lt(before.1) {
            (Some(k - 1), d)
        } else {
            before
        }
    }
}

/// The clusters after cluster `i` has gone into cluster `j`, which has become
/// `grown`.
pub open spec fn taken_in<S>(cs: Seq<Cluster<S>>, i: int, j: int, grown: Cluster<S>) -> Seq<
    Cluster<S>,
> {
    cs.update(j, grown).remove(i)
}

/// `grown` is cluster `j` with the pixels of cluster `i` behind its own.
pub open spec fn grown_by<S, F: Fn(&Vec<usize>) -> S>(
    summarise: F,
    cs: Seq<Cluster<S>>,
    i: int,
    j: int,
    grown: Cluster<S>,
) -> bool {
    grown.indices@ == cs[j].indices@ + cs[i].indices@ && summarised(summarise, grown)
}

/// `out` follows from `cs` when clusters below `min_area` go into the nearest one
/// that is large enough, looking at each from number `i` on.
pub open spec fn merged_small<S, F: Fn(&Vec<usize>) -> S, D: Fn(&S, &S) -> Scalar>(
    summarise: F,
    distance: D,
    cs: Seq<Cluster<S>>,
    min_area: int,
    i: int,
    out: Seq<Cluster<S>>,
) -> bool
    decreases cs.len() - i,
{
    if i >= cs.len() || i < 0 {
        out == cs
    } else {
        let to = nearest(distance, cs, i, min_area, cs.len() as int).0;
        if cs[i].indices@.len() < min_area && to is Some {
            0 <= to->Some_0 < cs.len() && exists|grown: Cluster<S>|
                #[trigger] grown_by(summarise, cs, i, to->Some_0, grown) && merged_small(
                    summarise,
                    distance,
                    taken_in(cs, i, to->Some_0, grown),
                    min_area,
                    i,
                    out,
                )
        } else {
            merged_small(summarise, distance, cs, min_area, i + 1, out)
        }
    }
}

/// The first of the clusters with the fewest pixels.
pub open spec fn smallest<S>(cs: Seq<Cluster<S>>, k: int) -> int
    decreases k,
{
    if k <= 1 {
        0
    } else {
        let before = smallest(cs, k - 1);
        if cs[k - 1].indices@.len() < cs[before].indices@.len() {
            k - 1
        } else {
            before
        }
    }
}

/// `out` follows from `cs` when, as long as there are more than `max` clusters,
/// the smallest goes into the one nearest to it.
pub open spec fn reduced<S, F: Fn(&Vec<usize>) -> S, D: Fn(&S, &S) -> Scalar>(
    summarise: F,
    distance: D,
    cs: Seq<Cluster<S>>,
    max: int,
    out: Seq<Cluster<S>>,
) -> bool
    decreases cs.len(),
{
    if cs.len() <= max || cs.len() == 0 {
        out == cs
    } else {
        let i = smallest(cs, cs.len() as int);
        let to = nearest(distance, cs, i, 0, cs.len() as int).0;
        match to {
            None => out == cs,
            Some(j) => 0 <= i < cs.len() && 0 <= j < cs.len() && i != j && exists|
                grown: Cluster<S>,
            |
                #[trigger] grown_by(summarise, cs, i, j, grown) && reduced(
                    summarise,
                    distance,
                    taken_in(cs, i, j, grown),
                    max,
                    out,
                ),
        }
    }
}

proof fn nearest_in_range<S, D: Fn(&S, &S) -> Scalar>(
    distance: D,
    cs: Seq<Cluster<S>>,
    i: int,
    min_area: int,
    k: int,
)
    requires
        0 <= k <= cs.len(),
    ensures
        nearest(distance, cs, i, min_area, k).0 is Some ==> {
            let j = nearest(distance, cs, i, min_area, k).0->Some_0;
            0 <= j < k && may_take(cs, i, j, min_area)
        },
    decreases k,
{
    if k > 0 {
        nearest_in_range(distance, cs, i, min_area, k - 1);
    }
}

proof fn smallest_in_range<S>(cs: Seq<Cluster<S>>, k: int)
    requires
        1 <= k <= cs.len(),
    ensures
        0 <= smallest(cs, k) < k,
        forall|m: int|
            #![trigger cs[m]]
            0 <= m < k ==> cs[smallest(cs, k)].indices@.len() <= cs[m].indices@.len() && (m
                < smallest(cs, k) ==> cs[smallest(cs, k)].indices@.len() < cs[m].indices@.len()),
    decreases k,
{
    if k > 1 {
        smallest_in_range(cs, k - 1);
    }
}

/// The nearest cluster that may take in cluster `i`.
fn find_nearest<S, D: Fn(&S, &S) -> Scalar>(
    distance: &D,
    cs: &Vec<Cluster<S>>,
    i: usize,
    min_area: usize,
) -> (r: Option<usize>)
    requires
        is_distance(*distance),
        i < cs@.len(),
    ensures
        match nearest(*distance, cs@, i as int, min_area as int, cs@.len() as int).0 {
            Some(j) => r is Some && r->Some_0 == j && 0 <= j < cs@.len() && may_take(
                cs@,
                i as int,
                j,
                min_area as int,
            ),
            None => r is None,
        },
{
    let mut best: Option<usize> = None;
    let mut best_dist = Scalar::new(MAX_BITS);
    let mut j: usize = 0;
    while j < cs.len()
        invariant
            j <= cs@.len(),
            i < cs@.len(),
            is_distance(*distance),
            ({
                let now = nearest(*distance, cs@, i as int, min_area as int, j as int);
                &&& best_dist == now.1
                &&& match now.0 {
                    Some(t) => best is Some && best->Some_0 == t,
                    None => best is None,
                }
            }),
        decreases cs@.len() - j,
    {
        if j != i && cs[j].indices.len() >= min_area {
            let d = (*distance)(&cs[i].summary, &cs[j].summary);
            assert(d == apart(*distance, cs@[i as int].summary, cs@[j as int].summary));
            if d.less(&best_dist) {
                best_dist = d;
                best = Some(j);
            }
        }
        j += 1;
    }
    proof {
        nearest_in_range(*distance, cs@, i as int, min_area as int, cs@.len() as int);
    }
    best
}

/// Moves cluster `i` into cluster `j`.
fn take_in<S, F: Fn(&Vec<usize>) -> S>(
    summarise: &F,
    cs: &mut Vec<Cluster<S>>,
    i: usize,
    j: usize,
) -> (grown: Ghost<Cluster<S>>)
    requires
        i < old(cs)@.len(),
        j < old(cs)@.len(),
        i != j,
        forall|v: &Vec<usize>| #[trigger] call_requires(*summarise, (v,)),
    ensures
        grown_by(*summarise, old(cs)@, i as int, j as int, grown@),
        final(cs)@ == taken_in(old(cs)@, i as int, j as int, grown@),
{
    let ghost before = cs@;
    let mut moved = cs.remove(i);
    let at: usize = if j < i {
        j
    } else {
        j - 1
    };
    let ghost middle = cs@;
    let target = cs.remove(at);
    let mut indices = target.indices;
    indices.append(&mut moved.indices);
    let summary = (*summarise)(&indices);
    let grown_now = Cluster { indices, summary };
    let ghost g = grown_now;
    cs.insert(at, grown_now);
    proof {
        assert(target == before[j as int]);
        assert(g.indices@ =~= before[j as int].indices@ + before[i as int].indices@);
        assert(cs@ =~= taken_in(before, i as int, j as int, g));
    }
    Ghost(g)
}

/// Lets every cluster of fewer than `min_area` pixels go into the nearest one
/// that is large enough. Nothing happens where `min_area` is below 2.
pub fn merge_small_clusters<S, F: Fn(&Vec<usize>) -> S, D: Fn(&S, &S) -> Scalar>(
    cs: &mut Vec<Cluster<S>>,
    min_area: usize,
    summarise: &F,
    distance: &D,
)
    requires
        forall|v: &Vec<usize>| #[trigger] call_requires(*summarise, (v,)),
        is_distance(*distance),
    ensures
        min_area < 2 ==> final(cs)@ == old(cs)@,
        min_area >= 2 ==> merged_small(
            *summarise,
            *distance,
            old(cs)@,
            min_area as int,
            0,
            final(cs)@,
        ),
{
    if min_area < 2 {
        return;
    }
    let ghost start = cs@;
    let ghost min = min_area as int;
    let mut i: usize = 0;
    while i < cs.len()
        invariant
            i <= cs@.len(),
            min == min_area,
            forall|v: &Vec<usize>| #[trigger] call_requires(*summarise, (v,)),
            is_distance(*distance),
            forall|out: Seq<Cluster<S>>| #[trigger]
                merged_small(*summarise, *distance, cs@, min, i as int, out) ==> merged_small(
                    *summarise,
                    *distance,
                    start,
                    min,
                    0,
                    out,
                ),
        decreases cs@.len() - i,
    {
        let ghost before = cs@;
        let ghost at = i as int;
        let to = if cs[i].indices.len() < min_area {
            find_nearest(distance, cs, i, min_area)
        } else {
            None
        };
        match to {
            Some(j) => {
                let grown = take_in(summarise, cs, i, j);
                assert forall|out: Seq<Cluster<S>>| #[trigger]
                    merged_small(*summarise, *distance, cs@, min, at, out) implies merged_small(
                    *summarise,
                    *distance,
                    start,
                    min,
                    0,
                    out,
                ) by {
                    assert(grown_by(*summarise, before, at, j as int, grown@));
                    assert(merged_small(*summarise, *distance, before, min, at, out));
                }
            },
            None => {
                i += 1;
                assert forall|out: Seq<Cluster<S>>| #[trigger]
                    merged_small(*summarise, *distance, cs@, min, at + 1, out) implies merged_small(
                    *summarise,
                    *distance,
                    start,
                    min,
                    0,
                    out,
                ) by {
                    assert(merged_small(*summarise, *distance, before, min, at, out));
                }
            },
        }
    }
    assert(merged_small(*summarise, *distance, cs@, min, i as int, cs@));
}

/// As long as there are more than `max_clusters` clusters (at least one), lets
/// the smallest go into the one nearest to it.
pub fn reduce_cluster_count<S, F: Fn(&Vec<usize>) -> S, D: Fn(&S, &S) -> Scalar>(
    cs: &mut Vec<Cluster<S>>,
    max_clusters: usize,
    summarise: &F,
    distance: &D,
)
    requires
        forall|v: &Vec<usize>| #[trigger] call_requires(*summarise, (v,)),
        is_distance(*distance),
    ensures
        reduced(
            *summarise,
            *distance,
            old(cs)@,
            if max_clusters >= 1 {
                max_clusters as int
            } else {
                1
            },
            final(cs)@,
        ),
{
    let max: usize = if max_clusters >= 1 {
        max_clusters
    } else {
        1
    };
    let ghost start = cs@;
    let ghost limit = max as int;
    while cs.len() > max
        invariant
            start == old(cs)@,
            limit == max,
            max == if max_clusters >= 1 {
                max_clusters
            } else {
                1
            },
            forall|v: &Vec<usize>| #[trigger] call_requires(*summarise, (v,)),
            is_distance(*distance),
            forall|out: Seq<Cluster<S>>| #[trigger]
                reduced(*summarise, *distance, cs@, limit, out) ==> reduced(
                    *summarise,
                    *distance,
                    start,
                    limit,
                    out,
                ),
        decreases cs@.len(),
    {
        let ghost before = cs@;
        let small = find_smallest(cs);
        match find_nearest(distance, cs, small, 0) {
            Some(j) => {
                let grown = take_in(summarise, cs, small, j);
                assert forall|out: Seq<Cluster<S>>| #[trigger]
                    reduced(*summarise, *distance, cs@, limit, out) implies reduced(
                    *summarise,
                    *distance,
                    start,
                    limit,
                    out,
                ) by {
                    assert(grown_by(*summarise, before, small as int, j as int, grown@));
                    assert(reduced(*summarise, *distance, before, limit, out));
                }
            },
            None => {
                assert(reduced(*summarise, *distance, cs@, limit, cs@));
                return;
            },
        }
    }
    assert(reduced(*summarise, *distance, cs@, limit, cs@));
}

/// The first of the clusters with the fewest pixels.
fn find_smallest<S>(cs: &Vec<Cluster<S>>) -> (small: usize)
    requires
        cs@.len() > 0,
    ensures
        small == smallest(cs@, cs@.len() as int),
        small < cs@.len(),
{
    let mut small: usize = 0;
    let mut k: usize = 1;
    while k < cs.len()
        invariant
            1 <= k <= cs@.len(),
            small == smallest(cs@, k as int),
            small < k,
        decreases cs@.len() - k,
    {
        if cs[k].indices.len() < cs[small].indices.len() {
            small = k;
        }
        k += 1;
    }
    small
}

/// Where distances lie below the greatest number, the nearest cluster that may
/// take another in is one than which none that may is nearer, the first among
/// equals; there is one where any may.
pub proof fn nearest_is_nearest<S, D: Fn(&S, &S) -> Scalar>(
    distance: D,
    cs: Seq<Cluster<S>>,
    i: int,
    min_area: int,
    k: int,
    j: int,
)
    requires
        0 <= j < k <= cs.len(),
        j != i,
        cs[j].indices@.len() >= min_area,
        forall|a: S, b: S| (#[trigger] apart(distance, a, b)).lt(Scalar { bits: MAX_BITS }),
    ensures
        nearest(distance, cs, i, min_area, k).0 is Some,
        ({
            let (at, d) = nearest(distance, cs, i, min_area, k);
            let t = at->Some_0;
            &&& 0 <= t < k
            &&& t != i
            &&& cs[t].indices@.len() >= min_area
            &&& d == apart(distance, cs[i].summary, cs[t].summary)
            &&& d.le(apart(distance, cs[i].summary, cs[j].summary))
            &&& j < t ==> d.lt(apart(distance, cs[i].summary, cs[j].summary))
        }),
    decreases k,
{
    nearest_in_range(distance, cs, i, min_area, k - 1);
    nearest_holds_distance(distance, cs, i, min_area, k - 1);
    let (at, d) = nearest(distance, cs, i, min_area, k - 1);
    assert(apart(distance, cs[i].summary, cs[k - 1].summary).lt(Scalar { bits: MAX_BITS }));
    assert(apart(distance, cs[i].summary, cs[j].summary).lt(Scalar { bits: MAX_BITS }));
    if j < k - 1 {
        nearest_is_nearest(distance, cs, i, min_area, k - 1, j);
    }
    if at is Some {
        assert(apart(distance, cs[i].summary, cs[at->Some_0].summary).lt(
            Scalar { bits: MAX_BITS },
        ));
    }
}

proof fn nearest_holds_distance<S, D: Fn(&S, &S) -> Scalar>(
    distance: D,
    cs: Seq<Cluster<S>>,
    i: int,
    min_area: int,
    k: int,
)
    requires
        0 <= k <= cs.len(),
    ensures
        match nearest(distance, cs, i, min_area, k).0 {
            Some(t) => nearest(distance, cs, i, min_area, k).1 == apart(
                distance,
                cs[i].summary,
                cs[t].summary,
            ) && t != i && cs[t].indices@.len() >= min_area,
            None => nearest(distance, cs, i, min_area, k).1 == (Scalar { bits: MAX_BITS }),
        },
    decreases k,
{
    if k > 0 {
        nearest_holds_distance(distance, cs, i, min_area, k - 1);
    }
}

/// No cluster has fewer pixels than the smallest, and every earlier one has more.
pub proof fn smallest_has_fewest<S>(cs: Seq<Cluster<S>>, k: int, m: int)
    requires
        0 <= m < k <= cs.len(),
    ensures
        0 <= smallest(cs, k) < k,
        cs[smallest(cs, k)].indices@.len() <= cs[m].indices@.len(),
        m < smallest(cs, k) ==> cs[smallest(cs, k)].indices@.len() < cs[m].indices@.len(),
{
    smallest_in_range(cs, k);
}

/// Where one cluster is large enough, no cluster below the least area is left.
pub proof fn small_clusters_vanish<S, F: Fn(&Vec<usize>) -> S, D: Fn(&S, &S) -> Scalar>(
    summarise: F,
    distance: D,
    cs: Seq<Cluster<S>>,
    min_area: int,
    i: int,
    out: Seq<Cluster<S>>,
    large: int,
    c: int,
)
    requires
        merged_small(summarise, distance, cs, min_area, i, out),
        0 <= i <= cs.len(),
        0 <= large < cs.len(),
        cs[large].indices@.len() >= min_area,
        forall|m: int| #![trigger cs[m]] 0 <= m < i ==> cs[m].indices@.len() >= min_area,
        forall|a: S, b: S| (#[trigger] apart(distance, a, b)).lt(Scalar { bits: MAX_BITS }),
        0 <= c < out.len(),
    ensures
        out[c].indices@.len() >= min_area,
    decreases cs.len() - i,
{
    if i < cs.len() {
        let to = nearest(distance, cs, i, min_area, cs.len() as int).0;
        if cs[i].indices@.len() < min_area {
            nearest_is_nearest(distance, cs, i, min_area, cs.len() as int, large);
            let j = to->Some_0;
            let grown = choose|grown: Cluster<S>|
                #[trigger] grown_by(summarise, cs, i, j, grown) && merged_small(
                    summarise,
                    distance,
                    taken_in(cs, i, j, grown),
                    min_area,
                    i,
                    out,
                );
            let next = taken_in(cs, i, j, grown);
            let at = if j < i {
                j
            } else {
                j - 1
            };
            assert(next[at] == grown);
            assert forall|m: int| #![trigger next[m]] 0 <= m < i implies next[m].indices@.len()
                >= min_area by {
                if m != j {
                    assert(next[m] == cs[m]);
                }
            }
            small_clusters_vanish(summarise, distance, next, min_area, i, out, at, c);
        } else {
            small_clusters_vanish(summarise, distance, cs, min_area, i + 1, out, large, c);
        }
    } else {
        assert(out[c] == cs[c]);
    }
}

/// As many clusters are left as are wanted, or all where there are fewer.
pub proof fn reducing_reaches_count<S, F: Fn(&Vec<usize>) -> S, D: Fn(&S, &S) -> Scalar>(
    summarise: F,
    distance: D,
    cs: Seq<Cluster<S>>,
    max: int,
    out: Seq<Cluster<S>>,
)
    requires
        reduced(summarise, distance, cs, max, out),
        max >= 1,
        forall|a: S, b: S| (#[trigger] apart(distance, a, b)).lt(Scalar { bits: MAX_BITS }),
    ensures
        out.len() == if cs.len() <= max {
            cs.len() as int
        } else {
            max
        },
    decreases cs.len(),
{
    if cs.len() > max {
        let n = cs.len() as int;
        let i = smallest(cs, n);
        smallest_in_range(cs, n);
        let other = if i == 0 {
            1int
        } else {
            0
        };
        nearest_is_nearest(distance, cs, i, 0, n, other);
        let j = nearest(distance, cs, i, 0, n).0->Some_0;
        let grown = choose|grown: Cluster<S>|
            #[trigger] grown_by(summarise, cs, i, j, grown) && reduced(
                summarise,
                distance,
                taken_in(cs, i, j, grown),
                max,
                out,
            );
        reducing_reaches_count(summarise, distance, taken_in(cs, i, j, grown), max, out);
    }
}

proof fn all_pixels_of_one<S>(c: Cluster<S>)
    ensures
        all_pixels(seq![c]) == c.indices@,
{
    let s = seq![c];
    assert(s.drop_last() =~= seq![]);
    assert(all_pixels(s.drop_last()) =~= seq![]);
    assert(s.last() == c);
    assert(all_pixels(s) =~= c.indices@);
}

proof fn all_pixels_around<S>(cs: Seq<Cluster<S>>, i: int)
    requires
        0 <= i < cs.len(),
    ensures
        all_pixels(cs).to_multiset() == all_pixels(cs.remove(i)).to_multiset().add(
            cs[i].indices@.to_multiset(),
        ),
{
    let a = cs.take(i);
    let b = cs.skip(i);
    let c = b.skip(1);
    all_pixels_of_runs(cs, i);
    all_pixels_of_runs(b, 1);
    assert(b.take(1) =~= seq![cs[i]]);
    all_pixels_of_one(cs[i]);
    let r = cs.remove(i);
    all_pixels_of_runs(r, i);
    assert(r.take(i) =~= a);
    assert(r.skip(i) =~= c);
    vstd::seq_lib::lemma_multiset_commutative(all_pixels(a), all_pixels(b));
    vstd::seq_lib::lemma_multiset_commutative(cs[i].indices@, all_pixels(c));
    vstd::seq_lib::lemma_multiset_commutative(all_pixels(a), all_pixels(c));
    assert(all_pixels(cs).to_multiset() =~= all_pixels(r).to_multiset().add(
        cs[i].indices@.to_multiset(),
    ));
}

/// Taking one cluster into another keeps the pixels.
proof fn taking_in_keeps_pixels<S, F: Fn(&Vec<usize>) -> S>(
    summarise: F,
    cs: Seq<Cluster<S>>,
    i: int,
    j: int,
    grown: Cluster<S>,
)
    requires
        0 <= i < cs.len(),
        0 <= j < cs.len(),
        i != j,
        grown_by(summarise, cs, i, j, grown),
    ensures
        all_pixels(taken_in(cs, i, j, grown)).to_multiset() == all_pixels(cs).to_multiset(),
{
    let u = cs.update(j, grown);
    all_pixels_around(cs, j);
    all_pixels_around(u, j);
    assert(u.remove(j) =~= cs.remove(j));
    all_pixels_around(u, i);
    vstd::seq_lib::lemma_multiset_commutative(cs[j].indices@, cs[i].indices@);
    let rest = all_pixels(cs.remove(j)).to_multiset();
    let mi = cs[i].indices@.to_multiset();
    let mj = cs[j].indices@.to_multiset();
    let out = all_pixels(taken_in(cs, i, j, grown)).to_multiset();
    assert(rest.add(mj.add(mi)) =~= out.add(mi));
    assert(out =~= rest.add(mj)) by {
        assert forall|v: usize| out.count(v) == rest.add(mj).count(v) by {
            assert(rest.add(mj.add(mi)).count(v) == out.add(mi).count(v));
        }
    }
}

/// Merging small clusters loses no pixel and adds none.
pub proof fn merging_keeps_pixels<S, F: Fn(&Vec<usize>) -> S, D: Fn(&S, &S) -> Scalar>(
    summarise: F,
    distance: D,
    cs: Seq<Cluster<S>>,
    min_area: int,
    i: int,
    out: Seq<Cluster<S>>,
)
    requires
        merged_small(summarise, distance, cs, min_area, i, out),
    ensures
        all_pixels(out).to_multiset() == all_pixels(cs).to_multiset(),
    decreases cs.len() - i,
{
    if 0 <= i < cs.len() {
        let to = nearest(distance, cs, i, min_area, cs.len() as int).0;
        if cs[i].indices@.len() < min_area && to is Some {
            let j = to->Some_0;
            nearest_in_range(distance, cs, i, min_area, cs.len() as int);
            let grown = choose|grown: Cluster<S>|
                #[trigger] grown_by(summarise, cs, i, j, grown) && merged_small(
                    summarise,
                    distance,
                    taken_in(cs, i, j, grown),
                    min_area,
                    i,
                    out,
                );
            taking_in_keeps_pixels(summarise, cs, i, j, grown);
            merging_keeps_pixels(
                summarise,
                distance,
                taken_in(cs, i, j, grown),
                min_area,
                i,
                out,
            );
        } else {
            merging_keeps_pixels(summarise, distance, cs, min_area, i + 1, out);
        }
    }
}

/// Reducing the number of clusters loses no pixel and adds none, and leaves at
/// most as many clusters as are wanted unless distances are too great to count.
pub proof fn reducing_keeps_pixels<S, F: Fn(&Vec<usize>) -> S, D: Fn(&S, &S) -> Scalar>(
    summarise: F,
    distance: D,
    cs: Seq<Cluster<S>>,
    max: int,
    out: Seq<Cluster<S>>,
)
    requires
        reduced(summarise, distance, cs, max, out),
        max >= 1,
    ensures
        all_pixels(out).to_multiset() == all_pixels(cs).to_multiset(),
        out.len() <= cs.len(),
        out.len() <= max || nearest(
            distance,
            out,
            smallest(out, out.len() as int),
            0,
            out.len() as int,
        ).0 is None,
    decreases cs.len(),
{
    if cs.len() > max {
        let i = smallest(cs, cs.len() as int);
        if let Some(j) = nearest(distance, cs, i, 0, cs.len() as int).0 {
            let grown = choose|grown: Cluster<S>|
                #[trigger] grown_by(summarise, cs, i, j, grown) && reduced(
                    summarise,
                    distance,
                    taken_in(cs, i, j, grown),
                    max,
                    out,
                );
            taking_in_keeps_pixels(summarise, cs, i, j, grown);
            reducing_keeps_pixels(
                summarise,
                distance,
                taken_in(cs, i, j, grown),
                max,
                out,
            );
        }
    }
}

/// Reducing the number of clusters makes none smaller than the smallest was.
pub proof fn reducing_keeps_large<S, F: Fn(&Vec<usize>) -> S, D: Fn(&S, &S) -> Scalar>(
    summarise: F,
    distance: D,
    cs: Seq<Cluster<S>>,
    max: int,
    out: Seq<Cluster<S>>,
    least: int,
    c: int,
)
    requires
        reduced(summarise, distance, cs, max, out),
        max >= 1,
        forall|m: int| #![trigger cs[m]] 0 <= m < cs.len() ==> cs[m].indices@.len() >= least,
        0 <= c < out.len(),
    ensures
        out[c].indices@.len() >= least,
    decreases cs.len(),
{
    let n = cs.len() as int;
    let i = smallest(cs, n);
    if n > max && nearest(distance, cs, i, 0, n).0 is Some {
        smallest_in_range(cs, n);
        let j = nearest(distance, cs, i, 0, n).0->Some_0;
        let grown = choose|grown: Cluster<S>|
            #[trigger] grown_by(summarise, cs, i, j, grown) && reduced(
                summarise,
                distance,
                taken_in(cs, i, j, grown),
                max,
                out,
            );
        let next = taken_in(cs, i, j, grown);
        assert forall|m: int| #![trigger next[m]] 0 <= m < next.len() implies
            next[m].indices@.len() >= least by {
            let from = if m < i {
                m
            } else {
                m + 1
            };
            assert(next[m] == cs.update(j, grown)[from]);
            assert(cs[from].indices@.len() >= least);
            assert(cs[j].indices@.len() >= least);
        }
        reducing_keeps_large(summarise, distance, next, max, out, least, c);
    } else {
        assert(out[c] == cs[c]);
    }
}

} // verus!
