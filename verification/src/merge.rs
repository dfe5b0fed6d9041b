//! Merging touching regions: first by a decision per pair, then by letting small
//! regions join the neighbour that suits them best.

use vstd::prelude::*;
use crate::adjacency::AdjacentStats;
use crate::classes::{
    class_count, class_number, class_numbers_dense, is_classes, join, join_is_classes, singletons,
};
use crate::order::{
    is_permutation, key_order, key_order_exists, permutation_reaches, precedes, stable_order,
};
use crate::scalar::Scalar;
use crate::uf::Uf;

verus! {

/// Whether a region may be absorbed across a boundary, and how well that suits
/// it: the lower the score the better.
#[derive(Clone, Copy, Debug)]
pub struct Offer {
    pub allowed: bool,
    pub score: Scalar,
}

/// What has been decided about a pair of touching regions.
#[derive(Clone, Copy, Debug)]
pub struct PairPlan {
    /// The two regions are one.
    pub merge: bool,
    /// The offer to region `a` to be absorbed by `b`.
    pub a_into_b: Offer,
    /// The offer to region `b` to be absorbed by `a`.
    pub b_into_a: Offer,
}

/// Every pair names two of `n` regions.
pub open spec fn pairs_within(pairs: Seq<AdjacentStats>, n: int) -> bool {
    forall|k: int|
        #![trigger pairs[k]]
        0 <= k < pairs.len() ==> pairs[k].a < n && pairs[k].b < n
}

/// The partition of `n` regions after the decisions on the first `k` pairs.
pub open spec fn merged(n: nat, pairs: Seq<AdjacentStats>, plans: Seq<PairPlan>, k: int) -> Seq<
    int,
>
    decreases k,
{
    if k <= 0 {
        singletons(n)
    } else {
        let c = merged(n, pairs, plans, k - 1);
        if plans[k - 1].merge {
            join(c, pairs[k - 1].a as int, pairs[k - 1].b as int)
        } else {
            c
        }
    }
}

/// The pair has region `rid` on one side.
pub open spec fn involves(p: AdjacentStats, rid: int) -> bool {
    p.a == rid || p.b == rid
}

/// The region on the other side from `rid`.
pub open spec fn other_side(p: AdjacentStats, rid: int) -> int {
    if p.a == rid {
        p.b as int
    } else {
        p.a as int
    }
}

/// The offer to region `rid`.
pub open spec fn offer_to(p: AdjacentStats, plan: PairPlan, rid: int) -> Offer {
    if p.a == rid {
        plan.a_into_b
    } else {
        plan.b_into_a
    }
}

/// The pair makes region `rid` an allowed offer from another class of `c`.
pub open spec fn open_to(c: Seq<int>, p: AdjacentStats, plan: PairPlan, rid: int) -> bool {
    &&& involves(p, rid)
    &&& c[other_side(p, rid)] != c[rid]
    &&& offer_to(p, plan, rid).allowed
}

/// The best offer to region `rid` among the first `k` pairs: an offer replaces
/// an earlier one unless the earlier one's score is at most its own.
pub open spec fn best_offer(
    c: Seq<int>,
    pairs: Seq<AdjacentStats>,
    plans: Seq<PairPlan>,
    rid: int,
    k: int,
) -> Option<(int, Scalar)>
    decreases k,
{
    if k <= 0 {
        None
    } else {
        let before = best_offer(c, pairs, plans, rid, k - 1);
        let p = pairs[k - 1];
        let plan = plans[k - 1];
        if !open_to(c, p, plan, rid) {
            before
        } else {
            let score = offer_to(p, plan, rid).score;
            match before {
                Some((_, best)) if best.le(score) => before,
                _ => Some((other_side(p, rid), score)),
            }
        }
    }
}

/// The partition after each of the first `k` of `ids` took its best offer.
pub open spec fn absorbed(
    c: Seq<int>,
    pairs: Seq<AdjacentStats>,
    plans: Seq<PairPlan>,
    ids: Seq<usize>,
    k: int,
) -> Seq<int>
    decreases k,
{
    if k <= 0 {
        c
    } else {
        let before = absorbed(c, pairs, plans, ids, k - 1);
        let rid = ids[k - 1] as int;
        match best_offer(before, pairs, plans, rid, pairs.len() as int) {
            Some((target, _)) => join(before, rid, target),
            None => before,
        }
    }
}

/// `ids` lists the regions with an area below `min_area`, the smallest first,
/// equal areas by number.
pub open spec fn small_first(ids: Seq<usize>, areas: Seq<usize>, min_area: int) -> bool {
    &&& forall|k: int|
        #![trigger ids[k]]
        0 <= k < ids.len() ==> ids[k] < areas.len() && areas[ids[k] as int] < min_area
    &&& forall|r: int|
        #![trigger areas[r]]
        0 <= r < areas.len() && areas[r] < min_area ==> exists|k: int|
            0 <= k < ids.len() && ids[k] == r
    &&& forall|k: int, m: int|
        #![trigger ids[k], ids[m]]
        0 <= k < m < ids.len() ==> smaller(areas, ids[k] as int, ids[m] as int)
}

/// Region `a` comes before region `b` by area, then by number.
pub open spec fn smaller(areas: Seq<usize>, a: int, b: int) -> bool {
    areas[a] < areas[b] || (areas[a] == areas[b] && a < b)
}

/// Pairs keep a merged partition canonical.
pub proof fn merged_is_classes(n: nat, pairs: Seq<AdjacentStats>, plans: Seq<PairPlan>, k: int)
    requires
        pairs_within(pairs, n as int),
        k <= pairs.len(),
    ensures
        is_classes(merged(n, pairs, plans, k)),
        merged(n, pairs, plans, k).len() == n,
    decreases k,
{
    if k > 0 {
        merged_is_classes(n, pairs, plans, k - 1);
        if plans[k - 1].merge {
            assert(pairs[k - 1].a < n && pairs[k - 1].b < n);
            join_is_classes(
                merged(n, pairs, plans, k - 1),
                pairs[k - 1].a as int,
                pairs[k - 1].b as int,
            );
        }
    }
}

/// The best offer names a region in range, from another class.
proof fn best_offer_in_range(
    c: Seq<int>,
    pairs: Seq<AdjacentStats>,
    plans: Seq<PairPlan>,
    rid: int,
    k: int,
)
    requires
        pairs_within(pairs, c.len() as int),
        k <= pairs.len(),
    ensures
        best_offer(c, pairs, plans, rid, k) is Some ==> {
            let t = best_offer(c, pairs, plans, rid, k)->Some_0.0;
            0 <= t < c.len() && c[t] != c[rid]
        },
    decreases k,
{
    if k > 0 {
        best_offer_in_range(c, pairs, plans, rid, k - 1);
        assert(pairs[k - 1].a < c.len() && pairs[k - 1].b < c.len());
    }
}

/// Absorption keeps a partition canonical.
pub proof fn absorbed_is_classes(
    c: Seq<int>,
    pairs: Seq<AdjacentStats>,
    plans: Seq<PairPlan>,
    ids: Seq<usize>,
    k: int,
)
    requires
        is_classes(c),
        pairs_within(pairs, c.len() as int),
        k <= ids.len(),
        forall|m: int| #![trigger ids[m]] 0 <= m < ids.len() ==> ids[m] < c.len(),
    ensures
        is_classes(absorbed(c, pairs, plans, ids, k)),
        absorbed(c, pairs, plans, ids, k).len() == c.len(),
    decreases k,
{
    if k > 0 {
        absorbed_is_classes(c, pairs, plans, ids, k - 1);
        let before = absorbed(c, pairs, plans, ids, k - 1);
        let rid = ids[k - 1] as int;
        best_offer_in_range(before, pairs, plans, rid, pairs.len() as int);
        if let Some((t, _)) = best_offer(before, pairs, plans, rid, pairs.len() as int) {
            join_is_classes(before, rid, t);
        }
    }
}

/// Neither deciding pairs nor absorbing ever separates regions that share a
/// class.
pub proof fn absorbed_is_coarser(
    c: Seq<int>,
    pairs: Seq<AdjacentStats>,
    plans: Seq<PairPlan>,
    ids: Seq<usize>,
    k: int,
    i: int,
    j: int,
)
    requires
        is_classes(c),
        pairs_within(pairs, c.len() as int),
        k <= ids.len(),
        forall|m: int| #![trigger ids[m]] 0 <= m < ids.len() ==> ids[m] < c.len(),
        0 <= i < c.len(),
        0 <= j < c.len(),
        c[i] == c[j],
    ensures
        absorbed(c, pairs, plans, ids, k)[i] == absorbed(c, pairs, plans, ids, k)[j],
    decreases k,
{
    if k > 0 {
        absorbed_is_coarser(c, pairs, plans, ids, k - 1, i, j);
        absorbed_is_classes(c, pairs, plans, ids, k - 1);
        let before = absorbed(c, pairs, plans, ids, k - 1);
        best_offer_in_range(before, pairs, plans, ids[k - 1] as int, pairs.len() as int);
    }
}

/// Where no score is a NaN, the best offer is the first of those with the least
/// score.
pub proof fn best_offer_is_least(
    c: Seq<int>,
    pairs: Seq<AdjacentStats>,
    plans: Seq<PairPlan>,
    rid: int,
    k: int,
)
    requires
        0 <= k <= pairs.len(),
        pairs.len() == plans.len(),
        forall|m: int|
            #![trigger plans[m]]
            0 <= m < k ==> !offer_to(pairs[m], plans[m], rid).score.is_nan(),
    ensures
        match best_offer(c, pairs, plans, rid, k) {
            None => forall|m: int|
                #![trigger plans[m]]
                0 <= m < k ==> !open_to(c, pairs[m], plans[m], rid),
            Some((target, score)) => exists|b: int|
                {
                    &&& 0 <= b < k
                    &&& open_to(c, pairs[b], #[trigger] plans[b], rid)
                    &&& target == other_side(pairs[b], rid)
                    &&& score == offer_to(pairs[b], plans[b], rid).score
                    &&& forall|m: int|
                        #![trigger plans[m]]
                        0 <= m < k && open_to(c, pairs[m], plans[m], rid) ==> score.le(
                            offer_to(pairs[m], plans[m], rid).score,
                        ) && (m < b ==> score.lt(offer_to(pairs[m], plans[m], rid).score))
                },
        },
    decreases k,
{
    if k > 0 {
        best_offer_is_least(c, pairs, plans, rid, k - 1);
        let before = best_offer(c, pairs, plans, rid, k - 1);
        let p = pairs[k - 1];
        let plan = plans[k - 1];
        assert(!offer_to(p, plan, rid).score.is_nan());
        if let Some((target, score)) = before {
            let b = choose|b: int|
                {
                    &&& 0 <= b < k - 1
                    &&& open_to(c, pairs[b], #[trigger] plans[b], rid)
                    &&& target == other_side(pairs[b], rid)
                    &&& score == offer_to(pairs[b], plans[b], rid).score
                    &&& forall|m: int|
                        #![trigger plans[m]]
                        0 <= m < k - 1 && open_to(c, pairs[m], plans[m], rid) ==> score.le(
                            offer_to(pairs[m], plans[m], rid).score,
                        ) && (m < b ==> score.lt(offer_to(pairs[m], plans[m], rid).score))
                };
            assert(open_to(c, pairs[b], plans[b], rid));
        }
        if open_to(c, p, plan, rid) {
            assert(plans[k - 1] == plan);
        }
    }
}

/// Joins the pairs that are decided to be one.
pub fn merge_pairs(uf: &mut Uf, pairs: &[AdjacentStats], plans: &[PairPlan])
    requires
        old(uf).wf(),
        old(uf)@ == singletons(old(uf)@.len()),
        pairs_within(pairs@, old(uf)@.len() as int),
        plans@.len() == pairs@.len(),
    ensures
        final(uf).wf(),
        final(uf)@ == merged(old(uf)@.len(), pairs@, plans@, pairs@.len() as int),
{
    let ghost n = uf@.len();
    let mut k: usize = 0;
    while k < pairs.len()
        invariant
            uf.wf(),
            k <= pairs@.len(),
            plans@.len() == pairs@.len(),
            pairs_within(pairs@, n as int),
            n == uf@.len(),
            uf@ == merged(n, pairs@, plans@, k as int),
        decreases pairs@.len() - k,
    {
        assert(pairs@[k as int].a < n && pairs@[k as int].b < n);
        if plans[k].merge {
            uf.union(pairs[k].a, pairs[k].b);
        }
        k += 1;
    }
}

/// The regions with an area below `min_area`, the smallest first.
pub fn small_ids(areas: &[usize], min_area: usize) -> (ids: Vec<usize>)
    ensures
        small_first(ids@, areas@, min_area as int),
        forall|k: int|
            #![trigger ids@[k]]
            0 <= k < ids@.len() ==> ids@[k] < areas@.len() && areas@[ids@[k] as int] < min_area,
        forall|k: int, m: int|
            #![trigger ids@[k], ids@[m]]
            0 <= k < m < ids@.len() ==> ids@[k] != ids@[m] && areas@[ids@[k] as int]
                <= areas@[ids@[m] as int],
{
    let mut found: Vec<usize> = Vec::new();
    let mut keys: Vec<u64> = Vec::new();
    let mut r: usize = 0;
    while r < areas.len()
        invariant
            r <= areas@.len(),
            found@.len() == keys@.len(),
            forall|k: int|
                #![trigger found@[k]]
                0 <= k < found@.len() ==> found@[k] < r && areas@[found@[k] as int] < min_area
                    && keys@[k] == areas@[found@[k] as int],
            forall|k: int, m: int|
                #![trigger found@[k], found@[m]]
                0 <= k < m < found@.len() ==> found@[k] < found@[m],
            forall|q: int|
                #![trigger areas@[q]]
                0 <= q < r && areas@[q] < min_area ==> exists|k: int|
                    0 <= k < found@.len() && #[trigger] found@[k] == q,
        decreases areas@.len() - r,
    {
        let ghost before = found@;
        if areas[r] < min_area {
            found.push(r);
            keys.push(areas[r] as u64);
        }
        proof {
            assert forall|q: int| #![trigger areas@[q]] 0 <= q < r + 1 && areas@[q]
                < min_area implies exists|k: int| 0 <= k < found@.len() && #[trigger] found@[k]
                == q by {
                if q < r {
                    let k = choose|k: int| 0 <= k < before.len() && #[trigger] before[k] == q;
                    assert(found@[k] == q);
                } else {
                    assert(found@[found@.len() - 1] == q);
                }
            }
        }
        r += 1;
    }
    let order = stable_order(&keys);
    let mut ids: Vec<usize> = Vec::new();
    let mut k: usize = 0;
    while k < order.len()
        invariant
            k <= order@.len(),
            ids@.len() == k,
            found@.len() == keys@.len(),
            is_permutation(order@, keys@.len() as int),
            forall|m: int| #![trigger ids@[m]] 0 <= m < k ==> ids@[m] == found@[order@[m] as int],
        decreases order@.len() - k,
    {
        ids.push(found[order[k]]);
        k += 1;
    }
    proof {
        assert forall|q: int|
            #![trigger areas@[q]]
            0 <= q < areas@.len() && areas@[q] < min_area implies exists|k: int|
            0 <= k < ids@.len() && ids@[k] == q by {
            let m = choose|m: int| 0 <= m < found@.len() && #[trigger] found@[m] == q;
            permutation_reaches(order@, keys@.len() as int, m);
            let t = choose|t: int| 0 <= t < order@.len() && order@[t] == m;
            assert(ids@[t] == q);
        }
        assert forall|k: int, m: int|
            #![trigger ids@[k], ids@[m]]
            0 <= k < m < ids@.len() implies smaller(areas@, ids@[k] as int, ids@[m] as int) by {
            assert(precedes(keys@, order@[k] as int, order@[m] as int));
            let x = order@[k] as int;
            let y = order@[m] as int;
            assert(found@[x] < areas@.len() && found@[y] < areas@.len());
        }
    }
    ids
}

/// The pairs on each region's boundary, by pair number.
spec fn is_incidence(lists: Seq<Vec<usize>>, pairs: Seq<AdjacentStats>, n: int, k: int) -> bool {
    &&& lists.len() == n
    &&& forall|r: int| #![trigger lists[r]] 0 <= r < n ==> is_incident(lists[r]@, pairs, r, k)
}

spec fn is_incident(list: Seq<usize>, pairs: Seq<AdjacentStats>, r: int, k: int) -> bool {
    &&& forall|e: int|
        #![trigger list[e]]
        0 <= e < list.len() ==> list[e] < k && involves(pairs[list[e] as int], r)
    &&& forall|e: int, f: int|
        #![trigger list[e], list[f]]
        0 <= e < f < list.len() ==> list[e] < list[f]
    &&& forall|m: int|
        #![trigger pairs[m]]
        0 <= m < k && involves(pairs[m], r) ==> exists|e: int|
            0 <= e < list.len() && #[trigger] list[e] == m
}

fn push_to(lists: &mut Vec<Vec<usize>>, r: usize, v: usize)
    requires
        r < old(lists)@.len(),
    ensures
        final(lists)@.len() == old(lists)@.len(),
        final(lists)@[r as int]@ == old(lists)@[r as int]@.push(v),
        forall|q: int|
            #![trigger final(lists)@[q]]
            0 <= q < final(lists)@.len() && q != r ==> final(lists)@[q] == old(lists)@[q],
{
    lists[r].push(v);
}

fn incidence(pairs: &[AdjacentStats], n: usize) -> (lists: Vec<Vec<usize>>)
    requires
        pairs_within(pairs@, n as int),
        forall|k: int| #![trigger pairs@[k]] 0 <= k < pairs@.len() ==> pairs@[k].a != pairs@[k].b,
    ensures
        is_incidence(lists@, pairs@, n as int, pairs@.len() as int),
{
    let mut lists: Vec<Vec<usize>> = Vec::new();
    let mut r: usize = 0;
    while r < n
        invariant
            r <= n,
            is_incidence(lists@, pairs@, r as int, 0),
        decreases n - r,
    {
        lists.push(Vec::new());
        r += 1;
    }
    let mut k: usize = 0;
    while k < pairs.len()
        invariant
            k <= pairs@.len(),
            pairs_within(pairs@, n as int),
            forall|k: int|
                #![trigger pairs@[k]]
                0 <= k < pairs@.len() ==> pairs@[k].a != pairs@[k].b,
            is_incidence(lists@, pairs@, n as int, k as int),
        decreases pairs@.len() - k,
    {
        let ghost before = lists@;
        assert(pairs@[k as int].a < n && pairs@[k as int].b < n);
        push_to(&mut lists, pairs[k].a, k);
        push_to(&mut lists, pairs[k].b, k);
        proof {
            assert forall|r: int| #![trigger lists@[r]] 0 <= r < n implies is_incident(
                lists@[r]@,
                pairs@,
                r,
                k + 1,
            ) by {
                let old_list = before[r]@;
                let new_list = lists@[r]@;
                assert(is_incident(old_list, pairs@, r, k as int));
                assert(new_list == if involves(pairs@[k as int], r) {
                    old_list.push(k)
                } else {
                    old_list
                });
                assert forall|m: int|
                    #![trigger pairs@[m]]
                    0 <= m < k + 1 && involves(pairs@[m], r) implies exists|e: int|
                    0 <= e < new_list.len() && #[trigger] new_list[e] == m by {
                    if m < k {
                        let e = choose|e: int|
                            0 <= e < old_list.len() && #[trigger] old_list[e] == m;
                        assert(new_list[e] == m);
                    } else {
                        assert(new_list[new_list.len() - 1] == m);
                    }
                }
            }
        }
        k += 1;
    }
    lists
}

proof fn best_offer_skips(
    c: Seq<int>,
    pairs: Seq<AdjacentStats>,
    plans: Seq<PairPlan>,
    rid: int,
    from: int,
    to: int,
)
    requires
        0 <= from <= to <= pairs.len(),
        forall|m: int| #![trigger pairs[m]] from <= m < to ==> !involves(pairs[m], rid),
    ensures
        best_offer(c, pairs, plans, rid, to) == best_offer(c, pairs, plans, rid, from),
    decreases to - from,
{
    if from < to {
        best_offer_skips(c, pairs, plans, rid, from, to - 1);
        assert(!involves(pairs[to - 1], rid));
    }
}

/// The best offer to region `rid` in the current partition.
fn find_best(
    uf: &mut Uf,
    rid: usize,
    pairs: &[AdjacentStats],
    plans: &[PairPlan],
    list: &Vec<usize>,
) -> (best: Option<(usize, Scalar)>)
    requires
        old(uf).wf(),
        rid < old(uf)@.len(),
        pairs_within(pairs@, old(uf)@.len() as int),
        plans@.len() == pairs@.len(),
        is_incident(list@, pairs@, rid as int, pairs@.len() as int),
    ensures
        final(uf).wf(),
        final(uf)@ == old(uf)@,
        match best_offer(old(uf)@, pairs@, plans@, rid as int, pairs@.len() as int) {
            None => best is None,
            Some((t, s)) => best is Some && best->Some_0.0 == t && best->Some_0.1 == s
                && 0 <= t < old(uf)@.len(),
        },
{
    let ghost c = uf@;
    let mut best: Option<(usize, Scalar)> = None;
    let ghost mut upto: int = 0;
    let mut e: usize = 0;
    while e < list.len()
        invariant
            uf.wf(),
            uf@ == c,
            rid < c.len(),
            pairs_within(pairs@, c.len() as int),
            plans@.len() == pairs@.len(),
            is_incident(list@, pairs@, rid as int, pairs@.len() as int),
            e <= list@.len(),
            upto == if e == 0 {
                0
            } else {
                list@[e - 1] + 1
            },
            0 <= upto <= pairs@.len(),
            match best_offer(c, pairs@, plans@, rid as int, upto) {
                None => best is None,
                Some((t, s)) => best is Some && best->Some_0.0 == t && best->Some_0.1 == s && 0 <= t
                    < c.len(),
            },
        decreases list@.len() - e,
    {
        let at = list[e];
        proof {
            assert(involves(pairs@[at as int], rid as int));
            assert forall|m: int| #![trigger pairs@[m]] upto <= m < at implies !involves(
                pairs@[m],
                rid as int,
            ) by {
                if involves(pairs@[m], rid as int) {
                    let f = choose|f: int| 0 <= f < list@.len() && #[trigger] list@[f] == m;
                    assert(list@[f] == m);
                    if f < e {
                        assert(list@[f] <= list@[e - 1]);
                    }
                }
            }
            best_offer_skips(c, pairs@, plans@, rid as int, upto, at as int);
            upto = at + 1;
        }
        let p = &pairs[at];
        let is_a: bool = p.a == rid;
        let other: usize = if is_a {
            p.b
        } else {
            p.a
        };
        let offer: Offer = if is_a {
            plans[at].a_into_b
        } else {
            plans[at].b_into_a
        };
        let joined = uf.same(other, rid);
        if !joined && offer.allowed {
            let keep: bool = match best {
                Some((_, score)) => score.at_most(&offer.score),
                None => false,
            };
            if !keep {
                best = Some((other, offer.score));
            }
        }
        e += 1;
    }
    proof {
        assert forall|m: int| #![trigger pairs@[m]] upto <= m < pairs@.len() implies !involves(
            pairs@[m],
            rid as int,
        ) by {
            if involves(pairs@[m], rid as int) {
                let f = choose|f: int| 0 <= f < list@.len() && #[trigger] list@[f] == m;
                assert(list@[f] <= list@[list@.len() - 1]);
            }
        }
        best_offer_skips(c, pairs@, plans@, rid as int, upto, pairs@.len() as int);
    }
    best
}

/// Lets each region of `ids` in turn take its best offer.
pub fn absorb_small_regions(
    uf: &mut Uf,
    ids: &[usize],
    pairs: &[AdjacentStats],
    plans: &[PairPlan],
)
    requires
        old(uf).wf(),
        pairs_within(pairs@, old(uf)@.len() as int),
        forall|k: int| #![trigger pairs@[k]] 0 <= k < pairs@.len() ==> pairs@[k].a != pairs@[k].b,
        plans@.len() == pairs@.len(),
        forall|m: int| #![trigger ids@[m]] 0 <= m < ids@.len() ==> ids@[m] < old(uf)@.len(),
    ensures
        final(uf).wf(),
        final(uf)@ == absorbed(old(uf)@, pairs@, plans@, ids@, ids@.len() as int),
        final(uf)@.len() == old(uf)@.len(),
{
    let ghost c = uf@;
    let lists = incidence(pairs, uf.len());
    let mut k: usize = 0;
    while k < ids.len()
        invariant
            uf.wf(),
            uf@.len() == c.len(),
            k <= ids@.len(),
            pairs_within(pairs@, c.len() as int),
            plans@.len() == pairs@.len(),
            forall|m: int| #![trigger ids@[m]] 0 <= m < ids@.len() ==> ids@[m] < c.len(),
            is_incidence(lists@, pairs@, c.len() as int, pairs@.len() as int),
            uf@ == absorbed(c, pairs@, plans@, ids@, k as int),
        decreases ids@.len() - k,
    {
        let rid = ids[k];
        assert(is_incident(lists@[rid as int]@, pairs@, rid as int, pairs@.len() as int));
        let best = find_best(uf, rid, pairs, plans, &lists[rid]);
        if let Some((target, _)) = best {
            uf.union(rid, target);
        }
        k += 1;
    }
}

/// There is only one list of the small regions in order.
pub proof fn small_first_unique(p: Seq<usize>, q: Seq<usize>, areas: Seq<usize>, min_area: int)
    requires
        small_first(p, areas, min_area),
        small_first(q, areas, min_area),
    ensures
        p == q,
{
    let m = if p.len() <= q.len() {
        p.len()
    } else {
        q.len()
    };
    small_first_prefix(p, q, areas, min_area, m as int);
    if p.len() < q.len() {
        let r = q[m as int] as int;
        assert(areas[r] < min_area);
        let k = choose|k: int| 0 <= k < p.len() && p[k] == r;
        assert(p[k] == q[k]);
        assert(smaller(areas, q[k] as int, q[m as int] as int));
    }
    if q.len() < p.len() {
        let r = p[m as int] as int;
        assert(areas[r] < min_area);
        let k = choose|k: int| 0 <= k < q.len() && q[k] == r;
        assert(p[k] == q[k]);
        assert(smaller(areas, p[k] as int, p[m as int] as int));
    }
    assert(p =~= q);
}

proof fn small_first_prefix(
    p: Seq<usize>,
    q: Seq<usize>,
    areas: Seq<usize>,
    min_area: int,
    m: int,
)
    requires
        small_first(p, areas, min_area),
        small_first(q, areas, min_area),
        0 <= m <= p.len(),
        m <= q.len(),
    ensures
        forall|k: int| #![trigger p[k]] #![trigger q[k]] 0 <= k < m ==> p[k] == q[k],
    decreases m,
{
    if m > 0 {
        small_first_prefix(p, q, areas, min_area, m - 1);
        let k = m - 1;
        if p[k] != q[k] {
            assert(areas[p[k] as int] < min_area);
            assert(areas[q[k] as int] < min_area);
            let j = choose|j: int| 0 <= j < q.len() && q[j] == p[k];
            let i = choose|i: int| 0 <= i < p.len() && p[i] == q[k];
            if j < k {
                assert(p[j] == q[j]);
                assert(smaller(areas, p[j] as int, p[k] as int));
            }
            if i < k {
                assert(p[i] == q[i]);
                assert(smaller(areas, q[i] as int, q[k] as int));
            }
            assert(smaller(areas, q[k] as int, q[j] as int));
            assert(smaller(areas, p[k] as int, p[i] as int));
        }
    }
}

/// The regions with an area below `min_area`, the smallest first.
pub open spec fn small_order(areas: Seq<usize>, min_area: int) -> Seq<usize> {
    choose|ids: Seq<usize>| small_first(ids, areas, min_area)
}

/// The final partition of the regions: pairs merged as decided and then, if
/// asked for, small regions absorbed in order of size.
pub open spec fn final_classes(
    areas: Seq<usize>,
    pairs: Seq<AdjacentStats>,
    plans: Seq<PairPlan>,
    absorb: bool,
    min_area: int,
) -> Seq<int> {
    let c = merged(areas.len(), pairs, plans, pairs.len() as int);
    if absorb {
        let ids = small_order(areas, min_area);
        absorbed(c, pairs, plans, ids, ids.len() as int)
    } else {
        c
    }
}

/// The final partition is canonical.
pub proof fn final_classes_is_classes(
    areas: Seq<usize>,
    pairs: Seq<AdjacentStats>,
    plans: Seq<PairPlan>,
    absorb: bool,
    min_area: int,
    ids: Seq<usize>,
)
    requires
        pairs_within(pairs, areas.len() as int),
        small_first(ids, areas, min_area),
    ensures
        is_classes(final_classes(areas, pairs, plans, absorb, min_area)),
        final_classes(areas, pairs, plans, absorb, min_area).len() == areas.len(),
        small_order(areas, min_area) == ids,
{
    small_first_unique(small_order(areas, min_area), ids, areas, min_area);
    merged_is_classes(areas.len(), pairs, plans, pairs.len() as int);
    if absorb {
        absorbed_is_classes(
            merged(areas.len(), pairs, plans, pairs.len() as int),
            pairs,
            plans,
            ids,
            ids.len() as int,
        );
    }
}

/// There is a list of the small regions in order of size: it names exactly the
/// regions below the least area, and areas never fall along it.
pub proof fn small_order_ascends(areas: Seq<usize>, min_area: int)
    requires
        areas.len() <= usize::MAX,
    ensures
        small_first(small_order(areas, min_area), areas, min_area),
        forall|r: int|
            0 <= r < areas.len() ==> (#[trigger] areas[r] < min_area <==> small_order(
                areas,
                min_area,
            ).contains(r as usize)),
        forall|k: int, m: int|
            #![trigger small_order(areas, min_area)[k], small_order(areas, min_area)[m]]
            0 <= k < m < small_order(areas, min_area).len() ==> {
                let a = small_order(areas, min_area)[k] as int;
                let b = small_order(areas, min_area)[m] as int;
                areas[a] <= areas[b] && (areas[a] == areas[b] ==> a < b)
            },
{
    let keys = Seq::new(areas.len(), |i: int| areas[i] as u64);
    key_order_exists(keys);
    let p = key_order(keys);
    let m = small_prefix(areas, p, min_area, p.len() as int);
    let ids = p.take(m);
    assert forall|r: int| #![trigger areas[r]] 0 <= r < areas.len() && areas[r]
        < min_area implies exists|k: int| 0 <= k < ids.len() && ids[k] == r by {
        permutation_reaches(p, keys.len() as int, r);
        let k = choose|k: int| 0 <= k < p.len() && p[k] == r;
        assert(k < m);
        assert(ids[k] == r);
    }
    assert forall|k: int| #![trigger ids[k]] 0 <= k < ids.len() implies ids[k] < areas.len()
        && areas[ids[k] as int] < min_area by {
        assert(ids[k] == p[k]);
    }
    assert forall|k: int, j: int| #![trigger ids[k], ids[j]] 0 <= k < j < ids.len() implies smaller(
        areas,
        ids[k] as int,
        ids[j] as int,
    ) by {
        assert(precedes(keys, p[k] as int, p[j] as int));
    }
    assert(small_first(ids, areas, min_area));
    let s = small_order(areas, min_area);
    assert forall|r: int| 0 <= r < areas.len() implies (#[trigger] areas[r] < min_area
        <==> s.contains(r as usize)) by {
        if areas[r] < min_area {
            let k = choose|k: int| 0 <= k < s.len() && s[k] == r;
            assert(s[k] == r as usize);
        }
        if s.contains(r as usize) {
            let k = choose|k: int| 0 <= k < s.len() && s[k] == r as usize;
            assert(areas[s[k] as int] < min_area);
        }
    }
    assert forall|k: int, m: int| #![trigger s[k], s[m]] 0 <= k < m < s.len() implies {
        let a = s[k] as int;
        let b = s[m] as int;
        areas[a] <= areas[b] && (areas[a] == areas[b] ==> a < b)
    } by {
        assert(smaller(areas, s[k] as int, s[m] as int));
    }
}

/// How many of the first `n` places of an ascending list lie below a bound.
proof fn small_prefix(areas: Seq<usize>, p: Seq<usize>, min_area: int, n: int) -> (m: int)
    requires
        is_permutation(p, areas.len() as int),
        forall|i: int, j: int|
            #![trigger p[i], p[j]]
            0 <= i < j < p.len() ==> areas[p[i] as int] <= areas[p[j] as int],
        0 <= n <= p.len(),
    ensures
        0 <= m <= n,
        forall|i: int| #![trigger p[i]] 0 <= i < m ==> areas[p[i] as int] < min_area,
        forall|i: int| #![trigger p[i]] m <= i < n ==> areas[p[i] as int] >= min_area,
    decreases n,
{
    if n == 0 {
        0
    } else {
        let m = small_prefix(areas, p, min_area, n - 1);
        if areas[p[n - 1] as int] < min_area {
            assert forall|i: int| #![trigger p[i]] 0 <= i < n implies areas[p[i] as int]
                < min_area by {
                if i < n - 1 {
                    assert(areas[p[i] as int] <= areas[p[n - 1] as int]);
                }
            }
            n
        } else {
            m
        }
    }
}

/// The best offer comes from a pair that is open to the region, and there is one
/// where any pair is.
proof fn best_offer_is_open(
    c: Seq<int>,
    pairs: Seq<AdjacentStats>,
    plans: Seq<PairPlan>,
    rid: int,
    k: int,
)
    requires
        0 <= k <= pairs.len(),
    ensures
        match best_offer(c, pairs, plans, rid, k) {
            None => forall|m: int|
                #![trigger pairs[m]]
                0 <= m < k ==> !open_to(c, pairs[m], plans[m], rid),
            Some((t, s)) => exists|m: int|
                {
                    &&& 0 <= m < k
                    &&& open_to(c, #[trigger] pairs[m], plans[m], rid)
                    &&& t == other_side(pairs[m], rid)
                    &&& s == offer_to(pairs[m], plans[m], rid).score
                },
        },
    decreases k,
{
    if k > 0 {
        best_offer_is_open(c, pairs, plans, rid, k - 1);
        if open_to(c, pairs[k - 1], plans[k - 1], rid) {
            assert(open_to(c, pairs[k - 1], plans[k - 1], rid));
        }
    }
}

/// The classes never hold regions of two sides.
spec fn keeps_sides(c: Seq<int>, side: spec_fn(int) -> bool) -> bool {
    forall|i: int, j: int|
        #![trigger c[i], c[j]]
        0 <= i < c.len() && 0 <= j < c.len() && c[i] == c[j] ==> side(i) == side(j)
}

/// A pair of regions on two sides is neither one nor takes a small one across.
pub open spec fn no_bridge(
    areas: Seq<usize>,
    pairs: Seq<AdjacentStats>,
    plans: Seq<PairPlan>,
    absorb: bool,
    min_area: int,
    side: spec_fn(int) -> bool,
) -> bool {
    forall|k: int|
        #![trigger pairs[k]]
        0 <= k < pairs.len() && side(pairs[k].a as int) != side(pairs[k].b as int) ==> {
            &&& !plans[k].merge
            &&& absorb && areas[pairs[k].a as int] < min_area ==> !plans[k].a_into_b.allowed
            &&& absorb && areas[pairs[k].b as int] < min_area ==> !plans[k].b_into_a.allowed
        }
}

proof fn join_keeps_sides(c: Seq<int>, a: int, b: int, side: spec_fn(int) -> bool)
    requires
        is_classes(c),
        0 <= a < c.len(),
        0 <= b < c.len(),
        keeps_sides(c, side),
        side(a) == side(b),
    ensures
        keeps_sides(join(c, a, b), side),
{
    join_is_classes(c, a, b);
    let d = join(c, a, b);
    assert forall|i: int, j: int|
        #![trigger d[i], d[j]]
        0 <= i < d.len() && 0 <= j < d.len() && d[i] == d[j] implies side(i) == side(j) by {
        assert(c[i] == c[j] || (c[i] == c[a] && c[j] == c[b]) || (c[i] == c[b] && c[j] == c[a]));
    }
}

proof fn merged_keeps_sides(
    n: nat,
    pairs: Seq<AdjacentStats>,
    plans: Seq<PairPlan>,
    k: int,
    side: spec_fn(int) -> bool,
)
    requires
        pairs_within(pairs, n as int),
        0 <= k <= pairs.len(),
        forall|m: int|
            #![trigger pairs[m]]
            0 <= m < pairs.len() && plans[m].merge ==> side(pairs[m].a as int) == side(
                pairs[m].b as int,
            ),
    ensures
        keeps_sides(merged(n, pairs, plans, k), side),
    decreases k,
{
    if k > 0 {
        merged_keeps_sides(n, pairs, plans, k - 1, side);
        merged_is_classes(n, pairs, plans, k - 1);
        let p = pairs[k - 1];
        if plans[k - 1].merge {
            join_keeps_sides(
                merged(n, pairs, plans, k - 1),
                p.a as int,
                p.b as int,
                side,
            );
        }
    }
}

proof fn absorbed_keeps_sides(
    c: Seq<int>,
    pairs: Seq<AdjacentStats>,
    plans: Seq<PairPlan>,
    ids: Seq<usize>,
    k: int,
    side: spec_fn(int) -> bool,
)
    requires
        is_classes(c),
        pairs_within(pairs, c.len() as int),
        0 <= k <= ids.len(),
        forall|m: int| #![trigger ids[m]] 0 <= m < ids.len() ==> ids[m] < c.len(),
        keeps_sides(c, side),
        forall|m: int, e: int|
            #![trigger ids[m], pairs[e]]
            0 <= m < ids.len() && 0 <= e < pairs.len() && involves(pairs[e], ids[m] as int)
                && offer_to(pairs[e], plans[e], ids[m] as int).allowed ==> side(ids[m] as int)
                == side(other_side(pairs[e], ids[m] as int)),
    ensures
        keeps_sides(absorbed(c, pairs, plans, ids, k), side),
    decreases k,
{
    if k > 0 {
        absorbed_keeps_sides(c, pairs, plans, ids, k - 1, side);
        absorbed_is_classes(c, pairs, plans, ids, k - 1);
        let before = absorbed(c, pairs, plans, ids, k - 1);
        let rid = ids[k - 1] as int;
        let n = pairs.len() as int;
        best_offer_is_open(before, pairs, plans, rid, n);
        best_offer_in_range(before, pairs, plans, rid, n);
        if let Some((t, s)) = best_offer(before, pairs, plans, rid, n) {
            let e = choose|e: int|
                {
                    &&& 0 <= e < n
                    &&& open_to(before, #[trigger] pairs[e], plans[e], rid)
                    &&& t == other_side(pairs[e], rid)
                    &&& s == offer_to(pairs[e], plans[e], rid).score
                };
            assert(involves(pairs[e], ids[k - 1] as int));
            join_keeps_sides(before, rid, t, side);
        }
    }
}

/// Regions end in one class only by way of pairs that are one or that take a
/// small region across an allowed boundary: where no pair between two sides is
/// such a bridge, no class holds regions of both.
pub proof fn classes_keep_sides(
    areas: Seq<usize>,
    pairs: Seq<AdjacentStats>,
    plans: Seq<PairPlan>,
    absorb: bool,
    min_area: int,
    side: spec_fn(int) -> bool,
    i: int,
    j: int,
)
    requires
        areas.len() <= usize::MAX,
        pairs_within(pairs, areas.len() as int),
        no_bridge(areas, pairs, plans, absorb, min_area, side),
        0 <= i < areas.len(),
        0 <= j < areas.len(),
        side(i) != side(j),
    ensures
        final_classes(areas, pairs, plans, absorb, min_area)[i] != final_classes(
            areas,
            pairs,
            plans,
            absorb,
            min_area,
        )[j],
{
    let n = pairs.len() as int;
    let c = merged(areas.len(), pairs, plans, n);
    merged_is_classes(areas.len(), pairs, plans, n);
    merged_keeps_sides(areas.len(), pairs, plans, n, side);
    small_order_ascends(areas, min_area);
    let ids = small_order(areas, min_area);
    if absorb {
        assert forall|m: int, e: int|
            #![trigger ids[m], pairs[e]]
            0 <= m < ids.len() && 0 <= e < pairs.len() && involves(pairs[e], ids[m] as int)
                && offer_to(pairs[e], plans[e], ids[m] as int).allowed implies side(ids[m] as int)
            == side(other_side(pairs[e], ids[m] as int)) by {
            assert(areas[ids[m] as int] < min_area);
        }
        absorbed_is_classes(c, pairs, plans, ids, ids.len() as int);
        absorbed_keeps_sides(c, pairs, plans, ids, ids.len() as int, side);
    }
}

proof fn merged_joins(n: nat, pairs: Seq<AdjacentStats>, plans: Seq<PairPlan>, k: int, m: int)
    requires
        pairs_within(pairs, n as int),
        0 <= m < k <= pairs.len(),
        plans[m].merge,
    ensures
        merged(n, pairs, plans, k)[pairs[m].a as int] == merged(
            n,
            pairs,
            plans,
            k,
        )[pairs[m].b as int],
    decreases k,
{
    let before = merged(n, pairs, plans, k - 1);
    let p = pairs[k - 1];
    let q = pairs[m];
    merged_is_classes(n, pairs, plans, k - 1);
    assert(before.len() == n);
    if m < k - 1 {
        merged_joins(n, pairs, plans, k - 1, m);
    }
    if plans[k - 1].merge {
        join_is_classes(before, p.a as int, p.b as int);
        let d = join(before, p.a as int, p.b as int);
        assert(d[q.a as int] == d[q.b as int]);
    }
}

proof fn absorbed_coarsens(
    c: Seq<int>,
    pairs: Seq<AdjacentStats>,
    plans: Seq<PairPlan>,
    ids: Seq<usize>,
    from: int,
    to: int,
    i: int,
    j: int,
)
    requires
        is_classes(c),
        pairs_within(pairs, c.len() as int),
        0 <= from <= to <= ids.len(),
        forall|m: int| #![trigger ids[m]] 0 <= m < ids.len() ==> ids[m] < c.len(),
        0 <= i < c.len(),
        0 <= j < c.len(),
        absorbed(c, pairs, plans, ids, from)[i] == absorbed(c, pairs, plans, ids, from)[j],
    ensures
        absorbed(c, pairs, plans, ids, to)[i] == absorbed(c, pairs, plans, ids, to)[j],
    decreases to,
{
    if from < to {
        absorbed_coarsens(c, pairs, plans, ids, from, to - 1, i, j);
        absorbed_is_classes(c, pairs, plans, ids, to - 1);
        let before = absorbed(c, pairs, plans, ids, to - 1);
        best_offer_in_range(before, pairs, plans, ids[to - 1] as int, pairs.len() as int);
    }
}

/// Two regions that are decided to be one share their final class, whatever is
/// absorbed afterwards.
pub proof fn merged_pairs_share_class(
    areas: Seq<usize>,
    pairs: Seq<AdjacentStats>,
    plans: Seq<PairPlan>,
    absorb: bool,
    min_area: int,
    k: int,
)
    requires
        areas.len() <= usize::MAX,
        pairs_within(pairs, areas.len() as int),
        0 <= k < pairs.len(),
        plans[k].merge,
    ensures
        final_classes(areas, pairs, plans, absorb, min_area)[pairs[k].a as int] == final_classes(
            areas,
            pairs,
            plans,
            absorb,
            min_area,
        )[pairs[k].b as int],
{
    let n = pairs.len() as int;
    let c = merged(areas.len(), pairs, plans, n);
    let q = pairs[k];
    merged_is_classes(areas.len(), pairs, plans, n);
    merged_joins(areas.len(), pairs, plans, n, k);
    small_order_ascends(areas, min_area);
    let ids = small_order(areas, min_area);
    if absorb {
        absorbed_coarsens(
            c,
            pairs,
            plans,
            ids,
            0,
            ids.len() as int,
            q.a as int,
            q.b as int,
        );
    }
}

/// A small region with an allowed offer is not left alone: it shares its final
/// class with another region.
pub proof fn small_region_finds_company(
    areas: Seq<usize>,
    pairs: Seq<AdjacentStats>,
    plans: Seq<PairPlan>,
    min_area: int,
    k: int,
    rid: int,
) -> (other: int)
    requires
        areas.len() <= usize::MAX,
        pairs_within(pairs, areas.len() as int),
        0 <= k < pairs.len(),
        pairs[k].a != pairs[k].b,
        pairs[k].a == rid && plans[k].a_into_b.allowed || pairs[k].b == rid
            && plans[k].b_into_a.allowed,
        areas[rid] < min_area,
    ensures
        0 <= other < areas.len(),
        other != rid,
        final_classes(areas, pairs, plans, true, min_area)[other] == final_classes(
            areas,
            pairs,
            plans,
            true,
            min_area,
        )[rid],
{
    let n = pairs.len() as int;
    let c = merged(areas.len(), pairs, plans, n);
    let p = pairs[k];
    merged_is_classes(areas.len(), pairs, plans, n);
    small_order_ascends(areas, min_area);
    let ids = small_order(areas, min_area);
    let at = choose|at: int| 0 <= at < ids.len() && ids[at] == rid;
    assert(ids[at] == rid);
    let before = absorbed(c, pairs, plans, ids, at);
    absorbed_is_classes(c, pairs, plans, ids, at);
    let near = other_side(p, rid);
    if before[near] == before[rid] {
        absorbed_coarsens(c, pairs, plans, ids, at, ids.len() as int, near, rid);
        near
    } else {
        best_offer_is_open(before, pairs, plans, rid, n);
        best_offer_in_range(before, pairs, plans, rid, n);
        assert(open_to(before, p, plans[k], rid));
        let t = best_offer(before, pairs, plans, rid, n)->Some_0.0;
        join_is_classes(before, rid, t);
        let after = absorbed(c, pairs, plans, ids, at + 1);
        assert(after == join(before, rid, t));
        assert(after[t] == after[rid]);
        absorbed_coarsens(c, pairs, plans, ids, at + 1, ids.len() as int, t, rid);
        t
    }
}

/// A small region ends in one class with the neighbour whose allowed offer has
/// the least score, the first one among equals.
pub proof fn small_region_takes_least_score(
    areas: Seq<usize>,
    pairs: Seq<AdjacentStats>,
    plans: Seq<PairPlan>,
    min_area: int,
    b: int,
    rid: int,
)
    requires
        areas.len() <= usize::MAX,
        pairs_within(pairs, areas.len() as int),
        0 <= b < pairs.len(),
        involves(pairs[b], rid),
        offer_to(pairs[b], plans[b], rid).allowed,
        areas[rid] < min_area,
        forall|m: int|
            #![trigger pairs[m]]
            0 <= m < pairs.len() && m != b && involves(pairs[m], rid) && offer_to(
                pairs[m],
                plans[m],
                rid,
            ).allowed ==> {
                let best = offer_to(pairs[b], plans[b], rid).score;
                let score = offer_to(pairs[m], plans[m], rid).score;
                best.le(score) && (m < b ==> best.lt(score))
            },
    ensures
        final_classes(areas, pairs, plans, true, min_area)[other_side(pairs[b], rid)]
            == final_classes(areas, pairs, plans, true, min_area)[rid],
{
    let n = pairs.len() as int;
    let c = merged(areas.len(), pairs, plans, n);
    let p = pairs[b];
    merged_is_classes(areas.len(), pairs, plans, n);
    small_order_ascends(areas, min_area);
    let ids = small_order(areas, min_area);
    let at = choose|at: int| 0 <= at < ids.len() && ids[at] == rid;
    assert(ids[at] == rid);
    let before = absorbed(c, pairs, plans, ids, at);
    absorbed_is_classes(c, pairs, plans, ids, at);
    let near = other_side(p, rid);
    if before[near] == before[rid] {
        absorbed_coarsens(c, pairs, plans, ids, at, ids.len() as int, near, rid);
    } else {
        best_offer_is_chosen(before, pairs, plans, rid, b, n);
        join_is_classes(before, rid, near);
        let after = absorbed(c, pairs, plans, ids, at + 1);
        assert(after == join(before, rid, near));
        assert(after[near] == after[rid]);
        absorbed_coarsens(c, pairs, plans, ids, at + 1, ids.len() as int, near, rid);
    }
}

proof fn best_offer_is_chosen(
    c: Seq<int>,
    pairs: Seq<AdjacentStats>,
    plans: Seq<PairPlan>,
    rid: int,
    b: int,
    k: int,
)
    requires
        0 <= b < k <= pairs.len(),
        open_to(c, pairs[b], plans[b], rid),
        forall|m: int|
            #![trigger pairs[m]]
            0 <= m < pairs.len() && m != b && involves(pairs[m], rid) && offer_to(
                pairs[m],
                plans[m],
                rid,
            ).allowed ==> {
                let best = offer_to(pairs[b], plans[b], rid).score;
                let score = offer_to(pairs[m], plans[m], rid).score;
                best.le(score) && (m < b ==> best.lt(score))
            },
    ensures
        best_offer(c, pairs, plans, rid, k) == Some(
            (other_side(pairs[b], rid), offer_to(pairs[b], plans[b], rid).score),
        ),
    decreases k,
{
    let p = pairs[k - 1];
    if k - 1 > b {
        best_offer_is_chosen(c, pairs, plans, rid, b, k - 1);
    } else {
        best_offer_is_open(c, pairs, plans, rid, b);
        let before = best_offer(c, pairs, plans, rid, b);
        if let Some((t, s)) = before {
            let m = choose|m: int|
                {
                    &&& 0 <= m < b
                    &&& open_to(c, #[trigger] pairs[m], plans[m], rid)
                    &&& t == other_side(pairs[m], rid)
                    &&& s == offer_to(pairs[m], plans[m], rid).score
                };
            assert(offer_to(pairs[b], plans[b], rid).score.lt(s));
        }
    }
}

/// Every class hangs together by the pairs within it: what is the same on both
/// sides of every pair that ends in one class is the same all over the class.
pub proof fn classes_hang_together(
    areas: Seq<usize>,
    pairs: Seq<AdjacentStats>,
    plans: Seq<PairPlan>,
    absorb: bool,
    min_area: int,
    side: spec_fn(int) -> bool,
    i: int,
    j: int,
)
    requires
        areas.len() <= usize::MAX,
        pairs_within(pairs, areas.len() as int),
        ({
            let c = final_classes(areas, pairs, plans, absorb, min_area);
            &&& forall|k: int|
                #![trigger pairs[k]]
                0 <= k < pairs.len() && c[pairs[k].a as int] == c[pairs[k].b as int] ==> side(
                    pairs[k].a as int,
                ) == side(pairs[k].b as int)
            &&& c[i] == c[j]
        }),
        0 <= i < areas.len(),
        0 <= j < areas.len(),
    ensures
        side(i) == side(j),
{
    let n = pairs.len() as int;
    let c = merged(areas.len(), pairs, plans, n);
    let last = final_classes(areas, pairs, plans, absorb, min_area);
    merged_is_classes(areas.len(), pairs, plans, n);
    small_order_ascends(areas, min_area);
    let ids = small_order(areas, min_area);
    assert forall|m: int| #![trigger pairs[m]] 0 <= m < pairs.len() && plans[m].merge implies side(
        pairs[m].a as int,
    ) == side(pairs[m].b as int) by {
        merged_pairs_share_class(areas, pairs, plans, absorb, min_area, m);
    }
    merged_keeps_sides(areas.len(), pairs, plans, n, side);
    if absorb {
        absorbed_is_classes(c, pairs, plans, ids, ids.len() as int);
        absorbed_hangs_together(c, pairs, plans, ids, ids.len() as int, side);
    }
    assert(last[i] == last[j]);
}

proof fn absorbed_hangs_together(
    c: Seq<int>,
    pairs: Seq<AdjacentStats>,
    plans: Seq<PairPlan>,
    ids: Seq<usize>,
    k: int,
    side: spec_fn(int) -> bool,
)
    requires
        is_classes(c),
        pairs_within(pairs, c.len() as int),
        0 <= k <= ids.len(),
        forall|m: int| #![trigger ids[m]] 0 <= m < ids.len() ==> ids[m] < c.len(),
        keeps_sides(c, side),
        ({
            let last = absorbed(c, pairs, plans, ids, ids.len() as int);
            forall|e: int|
                #![trigger pairs[e]]
                0 <= e < pairs.len() && last[pairs[e].a as int] == last[pairs[e].b as int] ==> side(
                    pairs[e].a as int,
                ) == side(pairs[e].b as int)
        }),
    ensures
        keeps_sides(absorbed(c, pairs, plans, ids, k), side),
    decreases k,
{
    if k > 0 {
        absorbed_hangs_together(c, pairs, plans, ids, k - 1, side);
        absorbed_is_classes(c, pairs, plans, ids, k - 1);
        let before = absorbed(c, pairs, plans, ids, k - 1);
        let rid = ids[k - 1] as int;
        let n = pairs.len() as int;
        best_offer_is_open(before, pairs, plans, rid, n);
        best_offer_in_range(before, pairs, plans, rid, n);
        if let Some((t, s)) = best_offer(before, pairs, plans, rid, n) {
            let e = choose|e: int|
                {
                    &&& 0 <= e < n
                    &&& open_to(before, #[trigger] pairs[e], plans[e], rid)
                    &&& t == other_side(pairs[e], rid)
                    &&& s == offer_to(pairs[e], plans[e], rid).score
                };
            let p = pairs[e];
            join_is_classes(before, rid, t);
            let after = absorbed(c, pairs, plans, ids, k);
            assert(after == join(before, rid, t));
            assert(after[rid] == after[t]);
            absorbed_coarsens(
                c,
                pairs,
                plans,
                ids,
                k,
                ids.len() as int,
                p.a as int,
                p.b as int,
            );
            assert(side(p.a as int) == side(p.b as int));
            join_keeps_sides(before, rid, t, side);
        }
    }
}

/// The regions' new numbers, by first appearance, and how many are left.
pub fn merge_numbers(
    areas: &[usize],
    pairs: &[AdjacentStats],
    plans: &[PairPlan],
    absorb: bool,
    min_area: usize,
) -> (r: (Vec<usize>, usize))
    requires
        pairs_within(pairs@, areas@.len() as int),
        forall|k: int| #![trigger pairs@[k]] 0 <= k < pairs@.len() ==> pairs@[k].a != pairs@[k].b,
        plans@.len() == pairs@.len(),
    ensures
        ({
            let c = final_classes(areas@, pairs@, plans@, absorb, min_area as int);
            &&& is_classes(c)
            &&& c.len() == areas@.len()
            &&& r.0@.len() == areas@.len()
            &&& forall|i: int|
                #![trigger r.0@[i]]
                0 <= i < r.0@.len() ==> r.0@[i] == class_number(c, i) && r.0@[i] < r.1
            &&& r.1 == class_count(c)
        }),
{
    let mut uf = Uf::new(areas.len());
    merge_pairs(&mut uf, pairs, plans);
    let ids = small_ids(areas, min_area);
    proof {
        final_classes_is_classes(areas@, pairs@, plans@, absorb, min_area as int, ids@);
        merged_is_classes(areas@.len(), pairs@, plans@, pairs@.len() as int);
    }
    if absorb {
        absorb_small_regions(&mut uf, &ids, pairs, plans);
    }
    let r = uf.resolve();
    proof {
        let c = final_classes(areas@, pairs@, plans@, absorb, min_area as int);
        assert forall|i: int| #![trigger r.0@[i]] 0 <= i < r.0@.len() implies r.0@[i]
            == class_number(c, i) && r.0@[i] < r.1 by {
            class_numbers_dense(c, i, i);
        }
    }
    r
}

/// The label map with every label replaced by its new number.
pub open spec fn relabelled(labels: Seq<Option<usize>>, numbers: Seq<usize>) -> Seq<
    Option<usize>,
> {
    Seq::new(
        labels.len(),
        |i: int|
            match labels[i] {
                Some(r) => Some(numbers[r as int]),
                None => None,
            },
    )
}

/// Replaces every label by its new number.
pub fn relabel(labels: &[Option<usize>], numbers: &[usize]) -> (out: Vec<Option<usize>>)
    requires
        forall|i: int|
            #![trigger labels@[i]]
            0 <= i < labels@.len() && labels@[i] is Some ==> labels@[i]->Some_0 < numbers@.len(),
    ensures
        out@ == relabelled(labels@, numbers@),
{
    let mut out: Vec<Option<usize>> = Vec::new();
    let mut i: usize = 0;
    while i < labels.len()
        invariant
            i <= labels@.len(),
            out@.len() == i,
            forall|i: int|
                #![trigger labels@[i]]
                0 <= i < labels@.len() && labels@[i] is Some ==> labels@[i]->Some_0
                    < numbers@.len(),
            forall|k: int| 0 <= k < i ==> out@[k] == relabelled(labels@, numbers@)[k],
        decreases labels@.len() - i,
    {
        match labels[i] {
            Some(r) => {
                out.push(Some(numbers[r]));
            },
            None => {
                out.push(None);
            },
        }
        i += 1;
    }
    proof {
        assert(out@ =~= relabelled(labels@, numbers@));
    }
    out
}

} // verus!
