//! Picking winners and tallying clusters.

use vstd::prelude::*;
use crate::scalar::Scalar;

verus! {

/// The last of the first `k` scores that none of them exceeds: a later score
/// takes over unless it is less.
pub open spec fn winner_of(scores: Seq<Scalar>, k: int) -> int
    decreases k,
{
    if k <= 1 {
        0
    } else {
        let before = winner_of(scores, k - 1);
        if scores[k - 1].lt(scores[before]) {
            before
        } else {
            k - 1
        }
    }
}

/// The position of the greatest score, the last among equals.
pub fn winner(scores: &[Scalar]) -> (r: Option<usize>)
    ensures
        r is None <==> scores@.len() == 0,
        r is Some ==> r->Some_0 == winner_of(scores@, scores@.len() as int) && r->Some_0
            < scores@.len(),
{
    if scores.len() == 0 {
        return None;
    }
    let mut best: usize = 0;
    let mut k: usize = 1;
    while k < scores.len()
        invariant
            1 <= k <= scores@.len(),
            best == winner_of(scores@, k as int),
            best < k,
        decreases scores@.len() - k,
    {
        if !scores[k].less(&scores[best]) {
            best = k;
        }
        k += 1;
    }
    Some(best)
}

/// Where no score is a NaN, no score exceeds the winner's, and every later one
/// is less.
pub proof fn winner_is_greatest(scores: Seq<Scalar>, k: int, i: int)
    requires
        0 <= i < k <= scores.len(),
        forall|m: int| #![trigger scores[m]] 0 <= m < k ==> !scores[m].is_nan(),
    ensures
        0 <= winner_of(scores, k) < k,
        scores[i].le(scores[winner_of(scores, k)]),
        i > winner_of(scores, k) ==> scores[i].lt(scores[winner_of(scores, k)]),
    decreases k,
{
    assert(!scores[i].is_nan());
    assert(!scores[k - 1].is_nan());
    if k > 1 {
        winner_is_greatest(scores, k - 1, 0);
        let before = winner_of(scores, k - 1);
        assert(!scores[before].is_nan());
        if i < k - 1 {
            winner_is_greatest(scores, k - 1, i);
        }
    }
}

/// The last of the first `k` counts that none of them exceeds.
pub open spec fn fullest(counts: Seq<usize>, k: int) -> int
    decreases k,
{
    if k <= 1 {
        0
    } else {
        let before = fullest(counts, k - 1);
        if counts[k - 1] < counts[before] {
            before
        } else {
            k - 1
        }
    }
}

/// The cluster with the most members, the last among equals; 0 where there is no
/// cluster.
pub fn dominant_cluster(counts: &[usize]) -> (i: usize)
    ensures
        i == fullest(counts@, counts@.len() as int),
        counts@.len() > 0 ==> i < counts@.len(),
        forall|m: int|
            #![trigger counts@[m]]
            0 <= m < counts@.len() ==> counts@[m] <= counts@[i as int] && (m > i ==> counts@[m]
                < counts@[i as int]),
{
    let mut best: usize = 0;
    let mut k: usize = 1;
    while k < counts.len()
        invariant
            1 <= k,
            k <= counts@.len() || k == 1,
            best == fullest(counts@, k as int),
            best < k,
            forall|m: int|
                #![trigger counts@[m]]
                0 <= m < k && m < counts@.len() ==> counts@[m] <= counts@[best as int] && (m > best
                    ==> counts@[m] < counts@[best as int]),
        decreases counts@.len() - k,
    {
        if counts[k] >= counts[best] {
            best = k;
        }
        k += 1;
    }
    best
}

/// Number of the first `m` assignments to cluster `c`.
pub open spec fn members_of(assign: Seq<usize>, c: int, m: int) -> nat
    decreases m,
{
    if m <= 0 {
        0
    } else {
        members_of(assign, c, m - 1) + if assign[m - 1] == c {
            1nat
        } else {
            0nat
        }
    }
}

/// Number of members of each of `k` clusters; assignments to others are left
/// out.
pub fn count_members(assign: &[usize], k: usize) -> (counts: Vec<usize>)
    ensures
        counts@.len() == k,
        forall|c: int|
            #![trigger counts@[c]]
            0 <= c < k ==> counts@[c] == members_of(assign@, c, assign@.len() as int),
{
    let mut counts: Vec<usize> = Vec::new();
    let mut c: usize = 0;
    while c < k
        invariant
            c <= k,
            counts@.len() == c,
            forall|q: int| #![trigger counts@[q]] 0 <= q < c ==> counts@[q] == 0,
        decreases k - c,
    {
        counts.push(0);
        c += 1;
    }
    let mut i: usize = 0;
    while i < assign.len()
        invariant
            i <= assign@.len(),
            counts@.len() == k,
            forall|q: int|
                #![trigger counts@[q]]
                0 <= q < k ==> counts@[q] == members_of(assign@, q, i as int) && counts@[q] <= i,
        decreases assign@.len() - i,
    {
        let c = assign[i];
        let ghost before = counts@;
        if c < k {
            let v = counts[c];
            counts.set(c, v + 1);
        }
        proof {
            assert forall|q: int| #![trigger counts@[q]] 0 <= q < k implies counts@[q]
                == members_of(assign@, q, i + 1) && counts@[q] <= i + 1 by {
                assert(before[q] == members_of(assign@, q, i as int));
            }
        }
        i += 1;
    }
    counts
}

/// Sum of the members of the first `k` clusters.
pub open spec fn members_sum(assign: Seq<usize>, k: int, m: int) -> nat
    decreases k,
{
    if k <= 0 {
        0
    } else {
        members_sum(assign, k - 1, m) + members_of(assign, k - 1, m)
    }
}

/// Where every assignment is to one of `k` clusters, the members of all clusters
/// add up to the number of assignments.
pub proof fn members_add_up(assign: Seq<usize>, k: int, m: int)
    requires
        0 <= m <= assign.len(),
        0 <= k,
        forall|i: int| #![trigger assign[i]] 0 <= i < m ==> assign[i] < k,
    ensures
        members_sum(assign, k, m) == m,
    decreases m,
{
    if m > 0 {
        members_add_up(assign, k, m - 1);
        assert(assign[m - 1] < k);
        members_one_more(assign, k, m);
    } else {
        members_none(assign, k);
    }
}

proof fn members_none(assign: Seq<usize>, k: int)
    ensures
        members_sum(assign, k, 0) == 0,
    decreases k,
{
    if k > 0 {
        members_none(assign, k - 1);
    }
}

proof fn members_one_more(assign: Seq<usize>, k: int, m: int)
    requires
        0 < m <= assign.len(),
    ensures
        members_sum(assign, k, m) == members_sum(assign, k, m - 1) + if assign[m - 1] < k {
            1nat
        } else {
            0nat
        },
    decreases k,
{
    if k > 0 {
        members_one_more(assign, k - 1, m);
    }
}

/// The samples of cluster `c` among the first `m`, in order.
pub open spec fn samples_of(assign: Seq<usize>, indices: Seq<usize>, c: int, m: int) -> Seq<usize>
    decreases m,
{
    if m <= 0 {
        seq![]
    } else if assign[m - 1] == c {
        samples_of(assign, indices, c, m - 1).push(indices[m - 1])
    } else {
        samples_of(assign, indices, c, m - 1)
    }
}

/// The samples of a cluster are exactly those assigned to it, as many as it has
/// members, in order.
pub proof fn samples_are_members(assign: Seq<usize>, indices: Seq<usize>, c: int, m: int, i: int)
    requires
        0 <= i < m <= assign.len(),
        indices.len() == assign.len(),
    ensures
        samples_of(assign, indices, c, m).len() == members_of(assign, c, m),
        assign[i] == c ==> members_of(assign, c, i) < samples_of(assign, indices, c, m).len()
            && samples_of(assign, indices, c, m)[members_of(assign, c, i) as int] == indices[i],
    decreases m,
{
    if i < m - 1 {
        samples_are_members(assign, indices, c, m - 1, i);
    } else {
        samples_count(assign, indices, c, m);
        samples_count(assign, indices, c, m - 1);
    }
}

proof fn samples_count(assign: Seq<usize>, indices: Seq<usize>, c: int, m: int)
    requires
        0 <= m <= assign.len(),
        indices.len() == assign.len(),
    ensures
        samples_of(assign, indices, c, m).len() == members_of(assign, c, m),
    decreases m,
{
    if m > 0 {
        samples_count(assign, indices, c, m - 1);
    }
}

/// The pixels of each of `k` clusters, in order of sampling; samples assigned to
/// others are left out.
pub fn group_samples(assign: &[usize], indices: &[usize], k: usize) -> (groups: Vec<Vec<usize>>)
    requires
        indices@.len() == assign@.len(),
    ensures
        groups@.len() == k,
        forall|c: int|
            #![trigger groups@[c]]
            0 <= c < k ==> groups@[c]@ == samples_of(assign@, indices@, c, assign@.len() as int),
{
    let mut groups: Vec<Vec<usize>> = Vec::new();
    let mut c: usize = 0;
    while c < k
        invariant
            c <= k,
            groups@.len() == c,
            forall|q: int|
                #![trigger groups@[q]]
                0 <= q < c ==> groups@[q]@ == samples_of(assign@, indices@, q, 0),
        decreases k - c,
    {
        groups.push(Vec::new());
        c += 1;
    }
    let mut i: usize = 0;
    while i < assign.len()
        invariant
            i <= assign@.len(),
            indices@.len() == assign@.len(),
            groups@.len() == k,
            forall|q: int|
                #![trigger groups@[q]]
                0 <= q < k ==> groups@[q]@ == samples_of(assign@, indices@, q, i as int),
        decreases assign@.len() - i,
    {
        let c = assign[i];
        let ghost before = groups@;
        if c < k {
            groups[c].push(indices[i]);
        }
        proof {
            assert forall|q: int| #![trigger groups@[q]] 0 <= q < k implies groups@[q]@
                == samples_of(assign@, indices@, q, i + 1) by {
                assert(before[q]@ == samples_of(assign@, indices@, q, i as int));
            }
        }
        i += 1;
    }
    groups
}

/// `v` is what `score` makes of cluster `c`: of its centre and its samples.
pub open spec fn scored_as<P, Q: Fn(&P, &Vec<usize>) -> Scalar>(
    score: Q,
    assign: Seq<usize>,
    indices: Seq<usize>,
    center: P,
    c: int,
    v: Scalar,
) -> bool {
    exists|g: Vec<usize>|
        #![trigger call_ensures(score, (&center, &g), v)]
        g@ == samples_of(assign, indices, c, assign.len() as int) && call_ensures(
            score,
            (&center, &g),
            v,
        )
}

/// `scores` holds what `score` makes of every cluster.
pub open spec fn all_scored_as<P, Q: Fn(&P, &Vec<usize>) -> Scalar>(
    score: Q,
    assign: Seq<usize>,
    indices: Seq<usize>,
    centers: Seq<P>,
    scores: Seq<Scalar>,
) -> bool {
    &&& scores.len() == centers.len()
    &&& forall|c: int|
        #![trigger scores[c]]
        0 <= c < scores.len() ==> scored_as(score, assign, indices, centers[c], c, scores[c])
}

/// The cluster with the best score, the last among equals, and all scores; none
/// where there are no clusters or no samples.
pub fn select_best_cluster<P, Q: Fn(&P, &Vec<usize>) -> Scalar>(
    assign: &[usize],
    indices: &[usize],
    centers: &[P],
    score: &Q,
) -> (r: Option<(usize, Vec<Scalar>)>)
    requires
        indices@.len() == assign@.len(),
        forall|p: &P, g: &Vec<usize>| #[trigger] call_requires(*score, (p, g)),
    ensures
        r is None <==> centers@.len() == 0 || assign@.len() == 0,
        r is Some ==> {
            &&& all_scored_as(*score, assign@, indices@, centers@, r->Some_0.1@)
            &&& r->Some_0.0 == winner_of(r->Some_0.1@, centers@.len() as int)
            &&& r->Some_0.0 < centers@.len()
        },
{
    let k = centers.len();
    if k == 0 || assign.len() == 0 {
        return None;
    }
    let groups = group_samples(assign, indices, k);
    let mut scores: Vec<Scalar> = Vec::new();
    let mut c: usize = 0;
    while c < k
        invariant
            c <= k,
            k == centers@.len(),
            groups@.len() == k,
            forall|p: &P, g: &Vec<usize>| #[trigger] call_requires(*score, (p, g)),
            forall|c: int|
                #![trigger groups@[c]]
                0 <= c < k ==> groups@[c]@ == samples_of(
                    assign@,
                    indices@,
                    c,
                    assign@.len() as int,
                ),
            scores@.len() == c,
            forall|q: int|
                #![trigger scores@[q]]
                0 <= q < c ==> scored_as(*score, assign@, indices@, centers@[q], q, scores@[q]),
        decreases k - c,
    {
        assert(call_requires(*score, (&centers@[c as int], &groups@[c as int])));
        let v = (*score)(&centers[c], &groups[c]);
        assert(call_ensures(*score, (&centers@[c as int], &groups@[c as int]), v));
        assert(scored_as(*score, assign@, indices@, centers@[c as int], c as int, v));
        scores.push(v);
        c += 1;
    }
    match winner(scores.as_slice()) {
        Some(best) => Some((best, scores)),
        None => None,
    }
}

/// A cluster is scored by its own centre and by all its samples.
pub proof fn scores_see_their_samples<P, Q: Fn(&P, &Vec<usize>) -> Scalar>(
    score: Q,
    assign: Seq<usize>,
    indices: Seq<usize>,
    centers: Seq<P>,
    scores: Seq<Scalar>,
    c: int,
    i: int,
) -> (g: Vec<usize>)
    requires
        all_scored_as(score, assign, indices, centers, scores),
        indices.len() == assign.len(),
        0 <= c < centers.len(),
        0 <= i < assign.len(),
    ensures
        scores.len() == centers.len(),
        call_ensures(score, (&centers[c], &g), scores[c]),
        g@.len() == members_of(assign, c, assign.len() as int),
        assign[i] == c ==> g@.contains(indices[i]),
{
    assert(scored_as(score, assign, indices, centers[c], c, scores[c]));
    let center = centers[c];
    let v = scores[c];
    let g = choose|g: Vec<usize>|
        #![trigger call_ensures(score, (&center, &g), v)]
        g@ == samples_of(assign, indices, c, assign.len() as int) && call_ensures(
            score,
            (&center, &g),
            v,
        );
    samples_are_members(assign, indices, c, assign.len() as int, i);
    if assign[i] == c {
        assert(g@[members_of(assign, c, i) as int] == indices[i]);
    }
    g
}

} // verus!
