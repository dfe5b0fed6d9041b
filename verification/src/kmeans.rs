//! K-means over points of any kind: seeding, assignment and iteration.

use vstd::prelude::*;
use crate::clusters::{apart, is_distance};
use crate::sampling::{draw_of, state_after, Lcg64};
use crate::scalar::{Scalar, MAX_BITS};

verus! {

/// The least distance from `p` to one of the first `j` centroids.
pub open spec fn least_distance<P, D: Fn(&P, &P) -> Scalar>(
    distance: D,
    p: P,
    centroids: Seq<P>,
    j: int,
) -> Scalar
    decreases j,
{
    if j <= 0 {
        Scalar { bits: MAX_BITS }
    } else {
        let before = least_distance(distance, p, centroids, j - 1);
        let d = apart(distance, p, centroids[j - 1]);
        if d.lt(before) {
            d
        } else {
            before
        }
    }
}

/// The least distances of all points to the first `j` centroids.
pub open spec fn least_distances<P, D: Fn(&P, &P) -> Scalar>(
    distance: D,
    pts: Seq<P>,
    centroids: Seq<P>,
    j: int,
) -> Seq<Scalar> {
    Seq::new(pts.len(), |i: int| least_distance(distance, pts[i], centroids, j))
}

/// `choose` answers for every list of distances and every draw, always the same,
/// and names a position of the list or none.
pub open spec fn is_chooser<C: Fn(&Vec<Scalar>, u64) -> Option<usize>>(choose_next: C) -> bool {
    &&& forall|v: &Vec<Scalar>, d: u64| #[trigger] call_requires(choose_next, (v, d))
    &&& forall|v: &Vec<Scalar>, d: u64, r: Option<usize>| #[trigger]
        call_ensures(choose_next, (v, d), r) ==> (r is Some ==> r->Some_0 < v@.len())
    &&& forall|v: &Vec<Scalar>, u: &Vec<Scalar>, d: u64, r: Option<usize>, s: Option<usize>|
        #![trigger call_ensures(choose_next, (v, d), r), call_ensures(choose_next, (u, d), s)]
        call_ensures(choose_next, (v, d), r) && call_ensures(choose_next, (u, d), s) && v@ == u@
            ==> r == s
}

/// `r` is what `choose` answers for these distances and this draw.
pub open spec fn chosen<C: Fn(&Vec<Scalar>, u64) -> Option<usize>>(
    choose_next: C,
    distances: Seq<Scalar>,
    draw: u64,
    r: Option<usize>,
) -> bool {
    exists|v: Vec<Scalar>| #[trigger]
        call_ensures(choose_next, (&v, draw), r) && v@ == distances
}

/// The draw with which centroid `j` is chosen.
pub open spec fn seeding_draw(seed: u64, j: int) -> u64 {
    draw_of(state_after(seed, j + 1))
}

/// The first `stop` centroids are points: the first point, then one chosen by
/// its distance from the centroids before it.
pub open spec fn seeded_until<
    P,
    D: Fn(&P, &P) -> Scalar,
    C: Fn(&Vec<Scalar>, u64) -> Option<usize>,
>(
    distance: D,
    choose_next: C,
    pts: Seq<P>,
    seed: u64,
    centroids: Seq<P>,
    stop: int,
) -> bool {
    &&& centroids.len() >= 1
    &&& centroids[0] == pts[0]
    &&& forall|j: int|
        1 <= j < stop ==> #[trigger] seeded_at(distance, choose_next, pts, seed, centroids, j)
}

/// Centroid `j` is the point chosen for it.
pub open spec fn seeded_at<
    P,
    D: Fn(&P, &P) -> Scalar,
    C: Fn(&Vec<Scalar>, u64) -> Option<usize>,
>(
    distance: D,
    choose_next: C,
    pts: Seq<P>,
    seed: u64,
    centroids: Seq<P>,
    j: int,
) -> bool {
    exists|i: usize|
        {
            &&& i < pts.len()
            &&& #[trigger] chosen(
                choose_next,
                least_distances(distance, pts, centroids.take(j), j),
                seeding_draw(seed, j),
                Some(i),
            )
            &&& centroids[j] == pts[i as int]
        }
}

/// The `k` centroids that k-means starts from: chosen one after the other; once
/// none can be chosen, the first is repeated.
pub open spec fn is_seeding<
    P,
    D: Fn(&P, &P) -> Scalar,
    C: Fn(&Vec<Scalar>, u64) -> Option<usize>,
>(
    distance: D,
    choose_next: C,
    pts: Seq<P>,
    seed: u64,
    centroids: Seq<P>,
    k: int,
    stop: int,
) -> bool {
    &&& centroids.len() == k
    &&& 1 <= stop <= k
    &&& seeded_until(distance, choose_next, pts, seed, centroids, stop)
    &&& stop < k ==> chosen(
        choose_next,
        least_distances(distance, pts, centroids.take(stop), stop),
        seeding_draw(seed, stop),
        None,
    )
    &&& forall|j: int|
        #![trigger centroids[j]]
        stop <= j < k ==> centroids[j] == centroids[0]
}

/// The least distance to the first centroids depends on these only.
pub proof fn least_distance_of_prefix<P, D: Fn(&P, &P) -> Scalar>(
    distance: D,
    p: P,
    a: Seq<P>,
    b: Seq<P>,
    j: int,
)
    requires
        0 <= j <= a.len(),
        j <= b.len(),
        forall|i: int| #![trigger a[i]] 0 <= i < j ==> a[i] == b[i],
    ensures
        least_distance(distance, p, a, j) == least_distance(distance, p, b, j),
    decreases j,
{
    if j > 0 {
        least_distance_of_prefix(distance, p, a, b, j - 1);
        assert(a[j - 1] == b[j - 1]);
    }
}

/// Chooses the centroids that k-means starts from.
pub fn seed_centroids<
    P: Copy,
    D: Fn(&P, &P) -> Scalar,
    C: Fn(&Vec<Scalar>, u64) -> Option<usize>,
>(pts: &[P], k: usize, seed: u64, distance: &D, choose_next: &C) -> (centroids: Vec<P>)
    requires
        pts@.len() > 0,
        k >= 1,
        is_distance(*distance),
        is_chooser(*choose_next),
    ensures
        exists|stop: int| #[trigger]
            is_seeding(*distance, *choose_next, pts@, seed, centroids@, k as int, stop),
        centroids@.len() == k,
{
    let n = pts.len();
    let mut rng = Lcg64::new(seed);
    let first_draw = rng.next_draw();
    let mut centroids: Vec<P> = Vec::new();
    centroids.push(pts[0]);
    let mut least: Vec<Scalar> = Vec::new();
    let mut i: usize = 0;
    while i < n
        invariant
            i <= n,
            n == pts@.len(),
            least@.len() == i,
            forall|q: int|
                #![trigger least@[q]]
                0 <= q < i ==> least@[q] == least_distance(*distance, pts@[q], centroids@, 0),
        decreases n - i,
    {
        least.push(Scalar::new(MAX_BITS));
        i += 1;
    }
    let mut j: usize = 1;
    while j < k
        invariant
            n == pts@.len(),
            n > 0,
            1 <= j <= k,
            is_distance(*distance),
            is_chooser(*choose_next),
            centroids@.len() == j,
            least@.len() == n,
            rng.state == state_after(seed, j as int),
            forall|q: int|
                #![trigger least@[q]]
                0 <= q < n ==> least@[q] == least_distance(*distance, pts@[q], centroids@, j - 1),
            seeded_until(*distance, *choose_next, pts@, seed, centroids@, j as int),
        decreases k - j,
    {
        let last = centroids[j - 1];
        let mut i: usize = 0;
        while i < n
            invariant
                i <= n,
                n == pts@.len(),
                1 <= j,
                centroids@.len() == j,
                last == centroids@[j - 1],
                is_distance(*distance),
                least@.len() == n,
                forall|q: int|
                    #![trigger least@[q]]
                    0 <= q < n ==> least@[q] == least_distance(
                        *distance,
                        pts@[q],
                        centroids@,
                        if q < i {
                            j as int
                        } else {
                            j - 1
                        },
                    ),
            decreases n - i,
        {
            let d = (*distance)(&pts[i], &last);
            assert(d == apart(*distance, pts@[i as int], last));
            if d.less(&least[i]) {
                least.set(i, d);
            }
            i += 1;
        }
        let draw = rng.next_draw();
        let next = (*choose_next)(&least, draw);
        let ghost before = centroids@;
        proof {
            assert(before.take(j as int) =~= before);
            assert(least@ =~= least_distances(*distance, pts@, before.take(j as int), j as int));
            assert(draw == seeding_draw(seed, j as int));
            assert(chosen(
                *choose_next,
                least_distances(*distance, pts@, before.take(j as int), j as int),
                draw,
                next,
            ));
        }
        match next {
            Some(at) => {
                centroids.push(pts[at]);
                proof {
                    seeding_prefix(
                        *distance,
                        *choose_next,
                        pts@,
                        seed,
                        before,
                        centroids@,
                        j as int,
                    );
                    assert(centroids@.take(j as int) =~= before.take(j as int));
                    assert(seeded_at(
                        *distance,
                        *choose_next,
                        pts@,
                        seed,
                        centroids@,
                        j as int,
                    ));
                    assert forall|q: int| #![trigger least@[q]] 0 <= q < n implies least@[q]
                        == least_distance(*distance, pts@[q], centroids@, j as int) by {
                        least_distance_of_prefix(
                            *distance,
                            pts@[q],
                            before,
                            centroids@,
                            j as int,
                        );
                    }
                }
                j += 1;
            },
            None => {
                let filler = centroids[0];
                while centroids.len() < k
                    invariant
                        1 <= j,
                        before.len() == j,
                        j <= centroids@.len() <= k,
                        filler == before[0],
                        forall|q: int|
                            #![trigger centroids@[q]]
                            0 <= q < j ==> centroids@[q] == before[q],
                        forall|q: int|
                            #![trigger centroids@[q]]
                            j <= q < centroids@.len() ==> centroids@[q] == filler,
                    decreases k - centroids@.len(),
                {
                    centroids.push(filler);
                }
                proof {
                    seeding_prefix(
                        *distance,
                        *choose_next,
                        pts@,
                        seed,
                        before,
                        centroids@,
                        j as int,
                    );
                    assert(centroids@.take(j as int) =~= before.take(j as int));
                    assert(is_seeding(
                        *distance,
                        *choose_next,
                        pts@,
                        seed,
                        centroids@,
                        k as int,
                        j as int,
                    ));
                }
                return centroids;
            },
        }
    }
    proof {
        assert(is_seeding(
            *distance,
            *choose_next,
            pts@,
            seed,
            centroids@,
            k as int,
            k as int,
        ));
    }
    centroids
}

/// Seeding looks at the centroids so far only.
proof fn seeding_prefix<
    P,
    D: Fn(&P, &P) -> Scalar,
    C: Fn(&Vec<Scalar>, u64) -> Option<usize>,
>(
    distance: D,
    choose_next: C,
    pts: Seq<P>,
    seed: u64,
    a: Seq<P>,
    b: Seq<P>,
    stop: int,
)
    requires
        seeded_until(distance, choose_next, pts, seed, a, stop),
        1 <= stop <= a.len(),
        stop <= b.len(),
        forall|i: int| #![trigger a[i]] 0 <= i < stop ==> a[i] == b[i],
    ensures
        seeded_until(distance, choose_next, pts, seed, b, stop),
{
    assert(a[0] == b[0]);
    assert forall|j: int| 1 <= j < stop implies #[trigger] seeded_at(
        distance,
        choose_next,
        pts,
        seed,
        b,
        j,
    ) by {
        assert(a[j] == b[j]);
        assert(a.take(j) =~= b.take(j));
        assert(seeded_at(distance, choose_next, pts, seed, a, j));
    }
}

/// The centroid nearest to `p` among the first `j`, the first among equals, with
/// its distance.
pub open spec fn nearest_centroid<P, D: Fn(&P, &P) -> Scalar>(
    distance: D,
    p: P,
    centroids: Seq<P>,
    j: int,
) -> (int, Scalar)
    decreases j,
{
    if j <= 1 {
        (0, apart(distance, p, centroids[0]))
    } else {
        let before = nearest_centroid(distance, p, centroids, j - 1);
        let d = apart(distance, p, centroids[j - 1]);
        if d.lt(before.1) {
            (j - 1, d)
        } else {
            before
        }
    }
}

/// Every point with the centroid nearest to it.
pub open spec fn assignment<P, D: Fn(&P, &P) -> Scalar>(
    distance: D,
    pts: Seq<P>,
    centroids: Seq<P>,
) -> Seq<usize> {
    Seq::new(
        pts.len(),
        |i: int|
            nearest_centroid(distance, pts[i], centroids, centroids.len() as int).0 as usize,
    )
}

/// Assigns every point to the centroid nearest to it. Tells whether any
/// assignment changed.
pub fn assign_points<P: Copy, D: Fn(&P, &P) -> Scalar>(
    pts: &[P],
    centroids: &Vec<P>,
    assign: &mut Vec<usize>,
    distance: &D,
) -> (changed: bool)
    requires
        centroids@.len() > 0,
        old(assign)@.len() == pts@.len(),
        is_distance(*distance),
    ensures
        final(assign)@ == assignment(*distance, pts@, centroids@),
        changed == (final(assign)@ != old(assign)@),
        forall|i: int|
            #![trigger final(assign)@[i]]
            0 <= i < final(assign)@.len() ==> final(assign)@[i] < centroids@.len(),
{
    let ghost before = assign@;
    let ghost goal = assignment(*distance, pts@, centroids@);
    let mut changed = false;
    let k = centroids.len();
    let mut i: usize = 0;
    while i < pts.len()
        invariant
            i <= pts@.len(),
            k == centroids@.len(),
            k > 0,
            is_distance(*distance),
            assign@.len() == pts@.len(),
            before.len() == pts@.len(),
            goal == assignment(*distance, pts@, centroids@),
            forall|q: int|
                #![trigger assign@[q]]
                0 <= q < assign@.len() ==> assign@[q] == if q < i {
                    goal[q]
                } else {
                    before[q]
                },
            forall|q: int| #![trigger assign@[q]] 0 <= q < i ==> assign@[q] < k,
            changed == (assign@ != before),
        decreases pts@.len() - i,
    {
        let p = pts[i];
        let mut best: usize = 0;
        let mut best_d = (*distance)(&p, &centroids[0]);
        assert(best_d == apart(*distance, p, centroids@[0]));
        let mut j: usize = 1;
        while j < k
            invariant
                1 <= j <= k,
                k == centroids@.len(),
                is_distance(*distance),
                best < k,
                (best as int, best_d) == nearest_centroid(*distance, p, centroids@, j as int),
            decreases k - j,
        {
            let d = (*distance)(&p, &centroids[j]);
            assert(d == apart(*distance, p, centroids@[j as int]));
            if d.less(&best_d) {
                best_d = d;
                best = j;
            }
            j += 1;
        }
        let ghost prior = assign@;
        if assign[i] != best {
            assign.set(i, best);
            changed = true;
            assert(assign@[i as int] != before[i as int]);
        }
        i += 1;
    }
    assert(assign@ =~= goal);
    changed
}

/// Assignments and centroids after a round.
pub ghost struct Round<P> {
    pub assign: Seq<usize>,
    pub centroids: Seq<P>,
}

/// `update` answers for every assignment, always the same, and gives as many
/// centroids as there were.
pub open spec fn is_update<P, U: Fn(&Vec<usize>, &Vec<P>) -> Vec<P>>(update: U) -> bool {
    &&& forall|a: &Vec<usize>, c: &Vec<P>| #[trigger] call_requires(update, (a, c))
    &&& forall|a: &Vec<usize>, c: &Vec<P>, r: Vec<P>| #[trigger]
        call_ensures(update, (a, c), r) ==> r@.len() == c@.len()
    &&& forall|
        a: &Vec<usize>,
        c: &Vec<P>,
        b: &Vec<usize>,
        e: &Vec<P>,
        r: Vec<P>,
        s: Vec<P>,
    |
        #![trigger call_ensures(update, (a, c), r), call_ensures(update, (b, e), s)]
        call_ensures(update, (a, c), r) && call_ensures(update, (b, e), s) && a@ == b@ && c@ == e@
            ==> r@ == s@
}

/// `now` are the centroids that `update` makes of an assignment.
pub open spec fn updated<P, U: Fn(&Vec<usize>, &Vec<P>) -> Vec<P>>(
    update: U,
    assign: Seq<usize>,
    centroids: Seq<P>,
    now: Seq<P>,
) -> bool {
    exists|a: Vec<usize>, c: Vec<P>, r: Vec<P>| #[trigger]
        call_ensures(update, (&a, &c), r) && a@ == assign && c@ == centroids && r@ == now
}

/// Round `b` follows round `a`: points go to the nearest centroid; if that
/// changed anything, the centroids are updated.
pub open spec fn follows<
    P,
    D: Fn(&P, &P) -> Scalar,
    U: Fn(&Vec<usize>, &Vec<P>) -> Vec<P>,
>(distance: D, update: U, pts: Seq<P>, a: Round<P>, b: Round<P>) -> bool {
    &&& b.assign == assignment(distance, pts, a.centroids)
    &&& if b.assign == a.assign {
        b.centroids == a.centroids
    } else {
        updated(update, b.assign, a.centroids, b.centroids)
    }
}

/// The rounds of k-means from the given centroids: from all points in the first
/// cluster until nothing changes, at most `max_iter` rounds.
pub open spec fn is_run<P, D: Fn(&P, &P) -> Scalar, U: Fn(&Vec<usize>, &Vec<P>) -> Vec<P>>(
    distance: D,
    update: U,
    pts: Seq<P>,
    start: Seq<P>,
    max_iter: int,
    rounds: Seq<Round<P>>,
) -> bool {
    let last = rounds.len() - 1;
    &&& 0 <= last <= max_iter
    &&& rounds[0] == (Round {
        assign: Seq::new(pts.len(), |i: int| 0usize),
        centroids: start,
    })
    &&& forall|t: int|
        #![trigger rounds[t]]
        0 < t <= last ==> follows(distance, update, pts, rounds[t - 1], rounds[t])
    &&& forall|t: int|
        #![trigger rounds[t]]
        0 < t < last ==> rounds[t].assign != rounds[t - 1].assign
    &&& last == max_iter || (last > 0 && rounds[last].assign == rounds[last - 1].assign)
}

/// Where distances are numbers, no centroid is nearer than the nearest, and every
/// earlier one is farther.
pub proof fn nearest_centroid_is_nearest<P, D: Fn(&P, &P) -> Scalar>(
    distance: D,
    p: P,
    centroids: Seq<P>,
    k: int,
    j: int,
)
    requires
        0 <= j < k <= centroids.len(),
        forall|m: int| 0 <= m < k ==> !(#[trigger] apart(distance, p, centroids[m])).is_nan(),
    ensures
        ({
            let (best, d) = nearest_centroid(distance, p, centroids, k);
            &&& 0 <= best < k
            &&& d == apart(distance, p, centroids[best])
            &&& d.le(apart(distance, p, centroids[j]))
            &&& j < best ==> d.lt(apart(distance, p, centroids[j]))
        }),
    decreases k,
{
    assert(!apart(distance, p, centroids[k - 1]).is_nan());
    assert(!apart(distance, p, centroids[j]).is_nan());
    if k > 1 {
        if j < k - 1 {
            nearest_centroid_is_nearest(distance, p, centroids, k - 1, j);
        } else {
            nearest_centroid_is_nearest(distance, p, centroids, k - 1, 0);
        }
        let best = nearest_centroid(distance, p, centroids, k - 1).0;
        assert(!apart(distance, p, centroids[best]).is_nan());
    }
}

/// Where distances are numbers, every point is assigned to a centroid than which
/// none is nearer to it.
pub proof fn points_go_to_nearest<P, D: Fn(&P, &P) -> Scalar>(
    distance: D,
    pts: Seq<P>,
    centroids: Seq<P>,
    i: int,
    j: int,
)
    requires
        0 <= i < pts.len(),
        0 <= j < centroids.len() <= usize::MAX,
        forall|m: int|
            0 <= m < centroids.len() ==> !(#[trigger] apart(
                distance,
                pts[i],
                centroids[m],
            )).is_nan(),
    ensures
        ({
            let a = assignment(distance, pts, centroids)[i] as int;
            &&& a < centroids.len()
            &&& apart(distance, pts[i], centroids[a]).le(apart(distance, pts[i], centroids[j]))
            &&& j < a ==> apart(distance, pts[i], centroids[a]).lt(
                apart(distance, pts[i], centroids[j]),
            )
        }),
{
    nearest_centroid_is_nearest(distance, pts[i], centroids, centroids.len() as int, j);
}

/// The least distance to centroids exceeds that to none of them, and is that to
/// one of them where any lies within the greatest number.
pub proof fn least_distance_is_least<P, D: Fn(&P, &P) -> Scalar>(
    distance: D,
    p: P,
    centroids: Seq<P>,
    k: int,
    j: int,
)
    requires
        0 <= j < k <= centroids.len(),
        forall|m: int|
            0 <= m < k ==> (#[trigger] apart(distance, p, centroids[m])).lt(
                Scalar { bits: MAX_BITS },
            ),
    ensures
        least_distance(distance, p, centroids, k).le(apart(distance, p, centroids[j])),
        exists|m: int|
            0 <= m < k && least_distance(distance, p, centroids, k) == #[trigger] apart(
                distance,
                p,
                centroids[m],
            ),
    decreases k,
{
    assert(apart(distance, p, centroids[k - 1]).lt(Scalar { bits: MAX_BITS }));
    assert(apart(distance, p, centroids[j]).lt(Scalar { bits: MAX_BITS }));
    if k > 1 {
        if j < k - 1 {
            least_distance_is_least(distance, p, centroids, k - 1, j);
        } else {
            least_distance_is_least(distance, p, centroids, k - 1, 0);
        }
        let m = choose|m: int|
            0 <= m < k - 1 && least_distance(distance, p, centroids, k - 1) == #[trigger] apart(
                distance,
                p,
                centroids[m],
            );
        assert(apart(distance, p, centroids[m]).lt(Scalar { bits: MAX_BITS }));
    } else {
        assert(least_distance(distance, p, centroids, 0) == (Scalar { bits: MAX_BITS }));
    }
}

/// The first centroid is the first point, and every centroid is a point.
pub proof fn centroids_start_as_points<
    P,
    D: Fn(&P, &P) -> Scalar,
    C: Fn(&Vec<Scalar>, u64) -> Option<usize>,
>(
    distance: D,
    choose_next: C,
    pts: Seq<P>,
    seed: u64,
    centroids: Seq<P>,
    k: int,
    stop: int,
    j: int,
)
    requires
        pts.len() > 0,
        is_seeding(distance, choose_next, pts, seed, centroids, k, stop),
        0 <= j < k,
    ensures
        centroids.len() == k,
        centroids[0] == pts[0],
        pts.contains(centroids[j]),
{
    assert(pts.contains(pts[0]));
    if 1 <= j < stop {
        assert(seeded_at(distance, choose_next, pts, seed, centroids, j));
    }
}

/// Every further centroid is a point chosen by the distances of all points to the
/// nearest of the centroids before it.
pub proof fn centroids_are_chosen_by_distance<
    P,
    D: Fn(&P, &P) -> Scalar,
    C: Fn(&Vec<Scalar>, u64) -> Option<usize>,
>(
    distance: D,
    choose_next: C,
    pts: Seq<P>,
    seed: u64,
    centroids: Seq<P>,
    k: int,
    stop: int,
    j: int,
) -> (r: (Seq<Scalar>, usize))
    requires
        is_seeding(distance, choose_next, pts, seed, centroids, k, stop),
        1 <= j < stop,
        forall|a: P, b: P| (#[trigger] apart(distance, a, b)).lt(Scalar { bits: MAX_BITS }),
    ensures
        r.0.len() == pts.len(),
        r.1 < pts.len(),
        centroids[j] == pts[r.1 as int],
        chosen(choose_next, r.0, seeding_draw(seed, j), Some(r.1)),
        forall|p: int, q: int|
            #![trigger r.0[p], centroids[q]]
            0 <= p < pts.len() && 0 <= q < j ==> r.0[p].le(apart(distance, pts[p], centroids[q])),
        forall|p: int|
            #![trigger r.0[p]]
            0 <= p < pts.len() ==> exists|q: int|
                0 <= q < j && r.0[p] == apart(distance, pts[p], #[trigger] centroids[q]),
{
    assert(seeded_at(distance, choose_next, pts, seed, centroids, j));
    let before = centroids.take(j);
    let ds = least_distances(distance, pts, before, j);
    let i = choose|i: usize|
        {
            &&& i < pts.len()
            &&& #[trigger] chosen(choose_next, ds, seeding_draw(seed, j), Some(i))
            &&& centroids[j] == pts[i as int]
        };
    assert forall|p: int, q: int|
        #![trigger ds[p], centroids[q]]
        0 <= p < pts.len() && 0 <= q < j implies ds[p].le(apart(distance, pts[p], centroids[q])) by {
        least_distance_is_least(distance, pts[p], before, j, q);
        assert(before[q] == centroids[q]);
    }
    assert forall|p: int| #![trigger ds[p]] 0 <= p < pts.len() implies exists|q: int|
        0 <= q < j && ds[p] == apart(distance, pts[p], #[trigger] centroids[q]) by {
        least_distance_is_least(distance, pts[p], before, j, 0);
        let q = choose|q: int|
            0 <= q < j && least_distance(distance, pts[p], before, j) == #[trigger] apart(
                distance,
                pts[p],
                before[q],
            );
        assert(before[q] == centroids[q]);
    }
    (ds, i)
}

/// A run that ends before the last round allowed has settled: its centroids assign
/// every point as it is assigned.
pub proof fn settled_runs_are_stable<
    P,
    D: Fn(&P, &P) -> Scalar,
    U: Fn(&Vec<usize>, &Vec<P>) -> Vec<P>,
>(
    distance: D,
    update: U,
    pts: Seq<P>,
    start: Seq<P>,
    max_iter: int,
    rounds: Seq<Round<P>>,
)
    requires
        is_run(distance, update, pts, start, max_iter, rounds),
        rounds.len() - 1 < max_iter,
    ensures
        rounds.last().assign == assignment(distance, pts, rounds.last().centroids),
{
    let last = rounds.len() - 1;
    assert(follows(distance, update, pts, rounds[last - 1], rounds[last]));
}

/// A run never takes more rounds than allowed, and starts from the given
/// centroids.
pub proof fn runs_are_bounded<
    P,
    D: Fn(&P, &P) -> Scalar,
    U: Fn(&Vec<usize>, &Vec<P>) -> Vec<P>,
>(
    distance: D,
    update: U,
    pts: Seq<P>,
    start: Seq<P>,
    max_iter: int,
    rounds: Seq<Round<P>>,
)
    requires
        is_run(distance, update, pts, start, max_iter, rounds),
    ensures
        1 <= rounds.len() <= max_iter + 1,
        rounds[0].centroids == start,
        rounds.len() > 1 ==> rounds[1].assign == assignment(distance, pts, start),
{
    if rounds.len() > 1 {
        assert(follows(distance, update, pts, rounds[0], rounds[1]));
    }
}

/// Iterates k-means from the given centroids.
pub fn iterate<
    P: Copy,
    D: Fn(&P, &P) -> Scalar,
    U: Fn(&Vec<usize>, &Vec<P>) -> Vec<P>,
>(
    pts: &[P],
    start: Vec<P>,
    max_iter: usize,
    distance: &D,
    update: &U,
) -> (r: (Vec<usize>, Vec<P>))
    requires
        start@.len() > 0,
        is_distance(*distance),
        is_update(*update),
    ensures
        exists|rounds: Seq<Round<P>>|
            {
                &&& #[trigger] is_run(
                    *distance,
                    *update,
                    pts@,
                    start@,
                    max_iter as int,
                    rounds,
                )
                &&& r.0@ == rounds.last().assign
                &&& r.1@ == rounds.last().centroids
            },
        r.0@.len() == pts@.len(),
        r.1@.len() == start@.len(),
        forall|i: int| #![trigger r.0@[i]] 0 <= i < r.0@.len() ==> r.0@[i] < start@.len(),
{
    let ghost first = start@;
    let mut centroids = start;
    let mut assign: Vec<usize> = Vec::new();
    let mut i: usize = 0;
    while i < pts.len()
        invariant
            i <= pts@.len(),
            assign@.len() == i,
            forall|q: int| #![trigger assign@[q]] 0 <= q < i ==> assign@[q] == 0,
        decreases pts@.len() - i,
    {
        assign.push(0);
        i += 1;
    }
    let ghost mut rounds: Seq<Round<P>> = seq![
        Round { assign: assign@, centroids: centroids@ },
    ];
    proof {
        assert(assign@ =~= Seq::new(pts@.len(), |i: int| 0usize));
    }
    let mut t: usize = 0;
    while t < max_iter
        invariant_except_break
            forall|q: int|
                #![trigger rounds[q]]
                0 < q <= t ==> rounds[q].assign != rounds[q - 1].assign,
        invariant
            t <= max_iter,
            is_distance(*distance),
            is_update(*update),
            first.len() > 0,
            centroids@.len() == first.len(),
            assign@.len() == pts@.len(),
            forall|q: int|
                #![trigger assign@[q]]
                0 <= q < assign@.len() ==> assign@[q] < first.len(),
            rounds.len() == t + 1,
            rounds[0] == (Round {
                assign: Seq::new(pts@.len(), |i: int| 0usize),
                centroids: first,
            }),
            rounds[t as int] == (Round { assign: assign@, centroids: centroids@ }),
            forall|q: int|
                #![trigger rounds[q]]
                0 < q <= t ==> follows(*distance, *update, pts@, rounds[q - 1], rounds[q]),
            forall|q: int|
                #![trigger rounds[q]]
                0 < q < t ==> rounds[q].assign != rounds[q - 1].assign,
        ensures
            t == max_iter || (t > 0 && rounds[t as int].assign == rounds[t - 1].assign),
        decreases max_iter - t,
    {
        let ghost old_assign = assign@;
        let ghost old_centroids = centroids@;
        let changed = assign_points(pts, &centroids, &mut assign, distance);
        if !changed {
            proof {
                let next = Round { assign: assign@, centroids: centroids@ };
                assert(follows(*distance, *update, pts@, rounds[t as int], next));
                rounds = rounds.push(next);
            }
            t += 1;
            break ;
        }
        let fresh = (*update)(&assign, &centroids);
        proof {
            assert(call_ensures(*update, (&assign, &centroids), fresh));
            assert(updated(*update, assign@, old_centroids, fresh@));
            let next = Round { assign: assign@, centroids: fresh@ };
            assert(follows(*distance, *update, pts@, rounds[t as int], next));
            rounds = rounds.push(next);
        }
        centroids = fresh;
        t += 1;
    }
    proof {
        assert(rounds.last() == rounds[t as int]);
        assert(is_run(*distance, *update, pts@, first, max_iter as int, rounds));
    }
    (assign, centroids)
}

/// Seeding from the same points with the same seed gives the same centroids.
pub proof fn seeding_repeats<
    P,
    D: Fn(&P, &P) -> Scalar,
    C: Fn(&Vec<Scalar>, u64) -> Option<usize>,
>(
    distance: D,
    choose_next: C,
    pts: Seq<P>,
    seed: u64,
    k: int,
    a: Seq<P>,
    stop_a: int,
    b: Seq<P>,
    stop_b: int,
)
    requires
        is_chooser(choose_next),
        is_seeding(distance, choose_next, pts, seed, a, k, stop_a),
        is_seeding(distance, choose_next, pts, seed, b, k, stop_b),
    ensures
        a == b,
{
    let both = if stop_a <= stop_b {
        stop_a
    } else {
        stop_b
    };
    seeding_agrees(distance, choose_next, pts, seed, a, b, both);
    assert(a.take(both) =~= b.take(both));
    if stop_a < stop_b {
        seeded_or_not(distance, choose_next, pts, seed, b, stop_a);
    } else if stop_b < stop_a {
        seeded_or_not(distance, choose_next, pts, seed, a, stop_b);
    }
    assert(a =~= b) by {
        assert forall|j: int| 0 <= j < k implies a[j] == b[j] by {
            if j < both {
                assert(a.take(both)[j] == b.take(both)[j]);
            }
        }
    }
}

/// Where a centroid is chosen, it cannot be that none can be chosen.
proof fn seeded_or_not<
    P,
    D: Fn(&P, &P) -> Scalar,
    C: Fn(&Vec<Scalar>, u64) -> Option<usize>,
>(distance: D, choose_next: C, pts: Seq<P>, seed: u64, a: Seq<P>, j: int)
    requires
        is_chooser(choose_next),
        seeded_at(distance, choose_next, pts, seed, a, j),
    ensures
        !chosen(
            choose_next,
            least_distances(distance, pts, a.take(j), j),
            seeding_draw(seed, j),
            None,
        ),
{
    let ds = least_distances(distance, pts, a.take(j), j);
    let draw = seeding_draw(seed, j);
    let i = choose|i: usize|
        {
            &&& i < pts.len()
            &&& #[trigger] chosen(choose_next, ds, draw, Some(i))
            &&& a[j] == pts[i as int]
        };
    if chosen(choose_next, ds, draw, None) {
        one_choice(choose_next, ds, draw, None, Some(i));
    }
}

proof fn one_choice<C: Fn(&Vec<Scalar>, u64) -> Option<usize>>(
    choose_next: C,
    ds: Seq<Scalar>,
    draw: u64,
    r: Option<usize>,
    s: Option<usize>,
)
    requires
        is_chooser(choose_next),
        chosen(choose_next, ds, draw, r),
        chosen(choose_next, ds, draw, s),
    ensures
        r == s,
{
    let v = choose|v: Vec<Scalar>| #[trigger]
        call_ensures(choose_next, (&v, draw), r) && v@ == ds;
    let u = choose|u: Vec<Scalar>| #[trigger]
        call_ensures(choose_next, (&u, draw), s) && u@ == ds;
    assert(call_ensures(choose_next, (&v, draw), r) && call_ensures(choose_next, (&u, draw), s));
}

proof fn seeding_agrees<
    P,
    D: Fn(&P, &P) -> Scalar,
    C: Fn(&Vec<Scalar>, u64) -> Option<usize>,
>(distance: D, choose_next: C, pts: Seq<P>, seed: u64, a: Seq<P>, b: Seq<P>, stop: int)
    requires
        is_chooser(choose_next),
        1 <= stop <= a.len(),
        stop <= b.len(),
        seeded_until(distance, choose_next, pts, seed, a, stop),
        seeded_until(distance, choose_next, pts, seed, b, stop),
    ensures
        a.take(stop) == b.take(stop),
    decreases stop,
{
    if stop == 1 {
        assert(a.take(1) =~= b.take(1));
    } else {
        let j = stop - 1;
        assert(seeded_until(distance, choose_next, pts, seed, a, j));
        assert(seeded_until(distance, choose_next, pts, seed, b, j));
        seeding_agrees(distance, choose_next, pts, seed, a, b, j);
        let ds = least_distances(distance, pts, a.take(j), j);
        let draw = seeding_draw(seed, j);
        assert(seeded_at(distance, choose_next, pts, seed, a, j));
        assert(seeded_at(distance, choose_next, pts, seed, b, j));
        let x = choose|i: usize|
            {
                &&& i < pts.len()
                &&& #[trigger] chosen(choose_next, ds, draw, Some(i))
                &&& a[j] == pts[i as int]
            };
        let y = choose|i: usize|
            {
                &&& i < pts.len()
                &&& #[trigger] chosen(
                    choose_next,
                    least_distances(distance, pts, b.take(j), j),
                    draw,
                    Some(i),
                )
                &&& b[j] == pts[i as int]
            };
        one_choice(choose_next, ds, draw, Some(x), Some(y));
        assert(a.take(stop) =~= b.take(stop)) by {
            assert forall|q: int| 0 <= q < stop implies a[q] == b[q] by {
                if q < j {
                    assert(a.take(j)[q] == b.take(j)[q]);
                }
            }
        }
    }
}

/// Iterating from the same centroids over the same points ends the same.
pub proof fn runs_repeat<P, D: Fn(&P, &P) -> Scalar, U: Fn(&Vec<usize>, &Vec<P>) -> Vec<P>>(
    distance: D,
    update: U,
    pts: Seq<P>,
    start: Seq<P>,
    max_iter: int,
    a: Seq<Round<P>>,
    b: Seq<Round<P>>,
)
    requires
        is_update(update),
        is_run(distance, update, pts, start, max_iter, a),
        is_run(distance, update, pts, start, max_iter, b),
    ensures
        a == b,
{
    let short = if a.len() <= b.len() {
        a.len() as int
    } else {
        b.len() as int
    };
    assert forall|t: int| 0 <= t < short implies #[trigger] a[t] == b[t] by {
        round_repeats(distance, update, pts, start, max_iter, a, b, t);
    }
    let last = short - 1;
    if a.len() != b.len() {
        assert(a[last] == b[last]);
        if last > 0 {
            assert(a[last - 1] == b[last - 1]);
        }
    }
    assert(a =~= b);
}

proof fn round_repeats<P, D: Fn(&P, &P) -> Scalar, U: Fn(&Vec<usize>, &Vec<P>) -> Vec<P>>(
    distance: D,
    update: U,
    pts: Seq<P>,
    start: Seq<P>,
    max_iter: int,
    a: Seq<Round<P>>,
    b: Seq<Round<P>>,
    t: int,
)
    requires
        is_update(update),
        is_run(distance, update, pts, start, max_iter, a),
        is_run(distance, update, pts, start, max_iter, b),
        0 <= t < a.len(),
        t < b.len(),
    ensures
        a[t] == b[t],
    decreases t,
{
    if t > 0 {
        round_repeats(distance, update, pts, start, max_iter, a, b, t - 1);
        assert(follows(distance, update, pts, a[t - 1], a[t]));
        assert(follows(distance, update, pts, b[t - 1], b[t]));
        if a[t].assign != a[t - 1].assign {
            let assign = a[t].assign;
            let from = a[t - 1].centroids;
            let (x, c, r) = choose|x: Vec<usize>, c: Vec<P>, r: Vec<P>| #[trigger]
                call_ensures(update, (&x, &c), r) && x@ == assign && c@ == from && r@
                    == a[t].centroids;
            let (y, e, s) = choose|x: Vec<usize>, c: Vec<P>, r: Vec<P>| #[trigger]
                call_ensures(update, (&x, &c), r) && x@ == assign && c@ == from && r@
                    == b[t].centroids;
            assert(call_ensures(update, (&x, &c), r) && call_ensures(update, (&y, &e), s));
        }
    }
}

} // verus!
