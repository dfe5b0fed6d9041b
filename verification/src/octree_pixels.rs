//! The leaves of an octree do not share pixels.

use vstd::prelude::*;
use crate::octree::{
    at_level, cell_of, cell_of_parent, cells, distinct_lists, inhabitants, is_quantised, kept,
    kids, kids_counted, kids_short, leaf_is, leaf_list, merging_reaches_target, parts_of,
    path_keys, pow8, sizes, stop_at, OctreeLeaf,
};
use crate::order::{key_order, key_order_exists};

verus! {

/// Some of the cells from `lo` up to `hi` is `v`.
spec fn claimed(here: Seq<int>, v: int, lo: int, hi: int) -> bool {
    exists|y: int| lo <= y < hi && #[trigger] here[y] == v
}

/// The entry is one of the merged cells, or a part of one that is not merged.
spec fn placed(here: Seq<int>, level: int, j: int, entry: (int, int)) -> bool {
    ||| entry.0 == level && claimed(here, entry.1, j, here.len() as int)
    ||| entry.0 == level + 1 && claimed(here, entry.1 / 8, 0, j)
}

/// All entries are placed, and none occurs twice.
spec fn all_placed(here: Seq<int>, level: int, j: int, list: Seq<(int, int)>) -> bool {
    &&& forall|t: int| 0 <= t < list.len() ==> placed(here, level, j, #[trigger] list[t])
    &&& forall|s: int, t: int|
        #![trigger list[s], list[t]]
        0 <= s < t < list.len() ==> list[s] != list[t]
}

proof fn kids_ascend(next: Seq<int>, v: int, o: int)
    requires
        0 <= o <= 8,
    ensures
        forall|s: int, t: int|
            #![trigger kids(next, v, o)[s], kids(next, v, o)[t]]
            0 <= s < t < kids(next, v, o).len() ==> kids(next, v, o)[s] < kids(next, v, o)[t],
    decreases o,
{
    kids_short(next, v, o);
    if o > 0 {
        kids_ascend(next, v, o - 1);
        kids_short(next, v, o - 1);
        let before = kids(next, v, o - 1);
        let now = kids(next, v, o);
        assert forall|s: int, t: int| #![trigger now[s], now[t]] 0 <= s < t < now.len() implies now[s]
            < now[t] by {
            assert(now[s] == before[s]);
            if t < before.len() {
                assert(now[t] == before[t]);
            }
        }
    }
}

proof fn kids_placed(here: Seq<int>, next: Seq<int>, level: int, y: int)
    requires
        0 <= y < here.len(),
    ensures
        forall|t: int|
            #![trigger kids(next, here[y], 8)[t]]
            0 <= t < kids(next, here[y], 8).len() ==> kids(next, here[y], 8)[t] / 8 == here[y],
{
    kids_short(next, here[y], 8);
    let list = kids(next, here[y], 8);
    assert forall|t: int| #![trigger list[t]] 0 <= t < list.len() implies list[t] / 8 == here[y] by {
        assert(8 * here[y] <= list[t] < 8 * here[y] + 8);
    }
}

/// Parts of the first `j` cells, with nothing occurring twice.
proof fn parts_placed(here: Seq<int>, next: Seq<int>, level: int, j: int)
    requires
        0 <= j <= here.len(),
        forall|a: int, b: int|
            #![trigger here[a], here[b]]
            0 <= a < b < here.len() ==> here[a] != here[b],
    ensures
        forall|t: int|
            0 <= t < parts_of(here, next, level, j).len() ==> (#[trigger] parts_of(
                here,
                next,
                level,
                j,
            )[t]).0 == level + 1 && claimed(
                here,
                parts_of(here, next, level, j)[t].1 / 8,
                0,
                j,
            ),
        forall|s: int, t: int|
            #![trigger parts_of(here, next, level, j)[s], parts_of(here, next, level, j)[t]]
            0 <= s < t < parts_of(here, next, level, j).len() ==> parts_of(
                here,
                next,
                level,
                j,
            )[s] != parts_of(here, next, level, j)[t],
    decreases j,
{
    if j > 0 {
        parts_placed(here, next, level, j - 1);
        let before = parts_of(here, next, level, j - 1);
        let fresh = kids(next, here[j - 1], 8);
        let more = at_level(level + 1, fresh);
        let now = parts_of(here, next, level, j);
        assert(now == before + more);
        kids_placed(here, next, level, j - 1);
        kids_ascend(next, here[j - 1], 8);
        assert forall|t: int| 0 <= t < now.len() implies (#[trigger] now[t]).0 == level + 1
            && claimed(here, now[t].1 / 8, 0, j) by {
            if t < before.len() {
                assert(now[t] == before[t]);
                let y = choose|y: int| 0 <= y < j - 1 && #[trigger] here[y] == before[t].1 / 8;
                assert(here[y] == now[t].1 / 8);
            } else {
                assert(now[t] == (level + 1, fresh[t - before.len()]));
                assert(here[j - 1] == now[t].1 / 8);
            }
        }
        assert forall|s: int, t: int| #![trigger now[s], now[t]] 0 <= s < t < now.len() implies now[s]
            != now[t] by {
            if t < before.len() {
                assert(now[s] == before[s] && now[t] == before[t]);
            } else {
                assert(now[t] == (level + 1, fresh[t - before.len()]));
                assert(fresh[t - before.len()] / 8 == here[j - 1]);
                if s < before.len() {
                    assert(now[s] == before[s]);
                    let y = choose|y: int| 0 <= y < j - 1 && #[trigger] here[y] == before[s].1 / 8;
                    assert(here[y] != here[j - 1]);
                } else {
                    assert(now[s] == (level + 1, fresh[s - before.len()]));
                    assert(fresh[s - before.len()] < fresh[t - before.len()]);
                }
            }
        }
    }
}

/// The kept parts of a cell are parts of it, and none occurs twice.
proof fn kept_placed(codes: Seq<int>, level: int, here: Seq<int>, next: Seq<int>, y: int, need: int)
    requires
        0 <= y < here.len(),
        0 <= need <= kids(next, here[y], 8).len(),
        forall|a: int, b: int|
            #![trigger next[a], next[b]]
            0 <= a < b < next.len() ==> next[a] != next[b],
    ensures
        forall|t: int|
            #![trigger kept(codes, level + 1, next, here[y], need)[t]]
            0 <= t < kept(codes, level + 1, next, here[y], need).len() ==> kept(
                codes,
                level + 1,
                next,
                here[y],
                need,
            )[t] / 8 == here[y],
        forall|s: int, t: int|
            #![trigger kept(codes, level + 1, next, here[y], need)[s], kept(codes, level + 1, next, here[y], need)[t]]
            0 <= s < t < kept(codes, level + 1, next, here[y], need).len() ==> kept(
                codes,
                level + 1,
                next,
                here[y],
                need,
            )[s] != kept(codes, level + 1, next, here[y], need)[t],
{
    let all = kids(next, here[y], 8);
    kids_counted(next, here[y]);
    kids_placed(here, next, level, y);
    kids_ascend(next, here[y], 8);
    let keys = sizes(codes, level + 1, all);
    key_order_exists(keys);
    let order = key_order(keys);
    let list = kept(codes, level + 1, next, here[y], need);
    assert forall|t: int| #![trigger list[t]] 0 <= t < list.len() implies list[t] / 8 == here[y] by {
        assert(order[need + t] < all.len());
        assert(list[t] == all[order[need + t] as int]);
    }
    assert forall|s: int, t: int| #![trigger list[s], list[t]] 0 <= s < t < list.len() implies list[s]
        != list[t] by {
        let a = order[need + s] as int;
        let b = order[need + t] as int;
        assert(a != b);
        assert(list[s] == all[a] && list[t] == all[b]);
        if a < b {
            assert(all[a] < all[b]);
        } else {
            assert(all[b] < all[a]);
        }
    }
}

proof fn leaf_list_placed(codes: Seq<int>, k: int)
    requires
        forall|i: int| #![trigger codes[i]] 0 <= i < codes.len() ==> 0 <= codes[i] < pow8(8),
        codes.len() > 0,
        k >= 1,
    ensures
        ({
            let s = stop_at(codes, k, 7, cells(codes, 7).len() as int);
            &&& 0 <= s.0 <= 7
            &&& all_placed(cells(codes, s.0), s.0, s.1, leaf_list(codes, s))
        }),
{
    let start = cells(codes, 7).len() as int;
    merging_reaches_target(codes, k, 7, start);
    let s = stop_at(codes, k, 7, start);
    let (level, j, need) = s;
    let here = cells(codes, level);
    let next = cells(codes, level + 1);
    distinct_lists(Seq::new(codes.len(), |i: int| cell_of(codes[i], level)));
    distinct_lists(Seq::new(codes.len(), |i: int| cell_of(codes[i], level + 1)));
    let merged = at_level(level, here.skip(j));
    let list = leaf_list(codes, s);
    let jj = if need > 0 {
        j - 1
    } else {
        j
    };
    parts_placed(here, next, level, jj);
    let parts = parts_of(here, next, level, jj);
    let last = if need > 0 {
        at_level(level + 1, kept(codes, level + 1, next, here[j - 1], need))
    } else {
        Seq::empty()
    };
    assert(list =~= merged + parts + last);
    if need > 0 {
        kids_counted(next, here[j - 1]);
        kept_placed(codes, level, here, next, j - 1, need);
    }
    let m = merged.len() as int;
    let p = parts.len() as int;
    assert forall|t: int| 0 <= t < list.len() implies placed(here, level, j, #[trigger] list[t]) by {
        if t < m {
            assert(list[t] == (level, here[j + t]));
            assert(claimed(here, list[t].1, j, here.len() as int));
        } else if t < m + p {
            assert(list[t] == parts[t - m]);
            let y = choose|y: int| 0 <= y < jj && #[trigger] here[y] == parts[t - m].1 / 8;
            assert(here[y] == list[t].1 / 8);
        } else {
            assert(list[t] == last[t - m - p]);
            assert(here[j - 1] == list[t].1 / 8);
        }
    }
    assert forall|a: int, b: int| #![trigger list[a], list[b]] 0 <= a < b < list.len() implies list[a]
        != list[b] by {
        if b < m {
            assert(here[j + a] != here[j + b]);
        } else if a < m {
            assert(list[a].0 == level);
            if b < m + p {
                assert(list[b] == parts[b - m]);
            } else {
                assert(list[b] == last[b - m - p]);
            }
        } else if b < m + p {
            assert(list[a] == parts[a - m] && list[b] == parts[b - m]);
        } else if a < m + p {
            assert(list[a] == parts[a - m]);
            assert(list[b] == last[b - m - p]);
            let y = choose|y: int| 0 <= y < jj && #[trigger] here[y] == parts[a - m].1 / 8;
            assert(here[y] != here[j - 1]);
        } else {
            assert(list[a] == last[a - m - p]);
            assert(list[b] == last[b - m - p]);
        }
    }
}

/// A leaf holds a path.
pub open spec fn leaf_holds(leaf: (int, int), code: int) -> bool {
    cell_of(code, leaf.0) == leaf.1
}

/// No path lies in two leaves.
proof fn held_once(codes: Seq<int>, k: int, s: int, t: int, i: int)
    requires
        forall|i: int| #![trigger codes[i]] 0 <= i < codes.len() ==> 0 <= codes[i] < pow8(8),
        codes.len() > 0,
        k >= 1,
        0 <= i < codes.len(),
        0 <= s < t < leaf_list(codes, stop_at(codes, k, 7, cells(codes, 7).len() as int)).len(),
    ensures
        ({
            let list = leaf_list(codes, stop_at(codes, k, 7, cells(codes, 7).len() as int));
            !(leaf_holds(list[s], codes[i]) && leaf_holds(list[t], codes[i]))
        }),
{
    let st = stop_at(codes, k, 7, cells(codes, 7).len() as int);
    let level = st.0;
    let j = st.1;
    let list = leaf_list(codes, st);
    let here = cells(codes, level);
    leaf_list_placed(codes, k);
    distinct_lists(Seq::new(codes.len(), |i: int| cell_of(codes[i], level)));
    cell_of_parent(codes[i], level);
    let a = list[s];
    let b = list[t];
    assert(a != b);
    assert(placed(here, level, j, a) && placed(here, level, j, b));
    if a.0 != b.0 && leaf_holds(a, codes[i]) && leaf_holds(b, codes[i]) {
        let (up, down) = if a.0 == level {
            (a, b)
        } else {
            (b, a)
        };
        let x = choose|x: int| j <= x < here.len() && #[trigger] here[x] == up.1;
        let y = choose|y: int| 0 <= y < j && #[trigger] here[y] == down.1 / 8;
        assert(here[y] != here[x]);
    }
}

/// Number of pixels below `n` in all the leaves.
pub open spec fn held_in_all(leaves: Seq<(int, int)>, codes: Seq<int>, m: int, n: int) -> int
    decreases m,
{
    if m <= 0 {
        0
    } else {
        held_in_all(leaves, codes, m - 1, n) + inhabitants(
            codes,
            leaves[m - 1].0,
            leaves[m - 1].1,
            n,
        ).len()
    }
}

proof fn held_none(leaves: Seq<(int, int)>, codes: Seq<int>, m: int)
    ensures
        held_in_all(leaves, codes, m, 0) == 0,
    decreases m,
{
    if m > 0 {
        held_none(leaves, codes, m - 1);
    }
}

/// One more pixel lies in at most one of the first `m` leaves.
proof fn held_one_more(leaves: Seq<(int, int)>, codes: Seq<int>, m: int, n: int)
    requires
        0 <= m <= leaves.len(),
        0 < n <= codes.len(),
        forall|s: int, t: int|
            #![trigger leaves[s], leaves[t]]
            0 <= s < t < leaves.len() ==> !(leaf_holds(leaves[s], codes[n - 1]) && leaf_holds(
                leaves[t],
                codes[n - 1],
            )),
    ensures
        held_in_all(leaves, codes, m, n) <= held_in_all(leaves, codes, m, n - 1) + 1,
        (forall|t: int|
            #![trigger leaves[t]]
            0 <= t < m ==> !leaf_holds(leaves[t], codes[n - 1])) ==> held_in_all(
            leaves,
            codes,
            m,
            n,
        ) == held_in_all(leaves, codes, m, n - 1),
    decreases m,
{
    if m > 0 {
        held_one_more(leaves, codes, m - 1, n);
        if leaf_holds(leaves[m - 1], codes[n - 1]) {
            assert forall|t: int| #![trigger leaves[t]] 0 <= t < m - 1 implies !leaf_holds(
                leaves[t],
                codes[n - 1],
            ) by {
                assert(!(leaf_holds(leaves[t], codes[n - 1]) && leaf_holds(
                    leaves[m - 1],
                    codes[n - 1],
                )));
            }
        }
    }
}

/// The leaves hold no more pixels than there are, since no two share one.
pub proof fn leaves_share_no_pixel(codes: Seq<int>, k: int, n: int)
    requires
        forall|i: int| #![trigger codes[i]] 0 <= i < codes.len() ==> 0 <= codes[i] < pow8(8),
        codes.len() > 0,
        k >= 1,
        0 <= n <= codes.len(),
    ensures
        ({
            let list = leaf_list(codes, stop_at(codes, k, 7, cells(codes, 7).len() as int));
            &&& forall|s: int, t: int, i: int|
                #![trigger list[s], list[t], codes[i]]
                0 <= s < t < list.len() && 0 <= i < codes.len() ==> !(leaf_holds(list[s], codes[i])
                    && leaf_holds(list[t], codes[i]))
            &&& held_in_all(list, codes, list.len() as int, n) <= n
        }),
    decreases n,
{
    let list = leaf_list(codes, stop_at(codes, k, 7, cells(codes, 7).len() as int));
    assert forall|s: int, t: int, i: int|
        #![trigger list[s], list[t], codes[i]]
        0 <= s < t < list.len() && 0 <= i < codes.len() implies !(leaf_holds(list[s], codes[i])
        && leaf_holds(list[t], codes[i])) by {
        held_once(codes, k, s, t, i);
    }
    if n == 0 {
        held_none(list, codes, list.len() as int);
    } else {
        leaves_share_no_pixel(codes, k, n - 1);
        assert forall|s: int, t: int|
            #![trigger list[s], list[t]]
            0 <= s < t < list.len() implies !(leaf_holds(list[s], codes[n - 1]) && leaf_holds(
            list[t],
            codes[n - 1],
        )) by {
            let c = codes[n - 1];
            assert(!(leaf_holds(list[s], codes[n - 1]) && leaf_holds(list[t], codes[n - 1])));
        }
        held_one_more(list, codes, list.len() as int, n);
    }
}

/// Number of pixels of the first `m` leaves.
pub open spec fn leaf_total(leaves: Seq<OctreeLeaf>, m: int) -> int
    decreases m,
{
    if m <= 0 {
        0
    } else {
        leaf_total(leaves, m - 1) + leaves[m - 1].pixels@.len()
    }
}

/// The leaves that come out hold no more pixels than went in.
pub proof fn leaves_hold_few(codes: Seq<int>, k: int, leaves: Seq<OctreeLeaf>, m: int)
    requires
        forall|i: int| #![trigger codes[i]] 0 <= i < codes.len() ==> 0 <= codes[i] < pow8(8),
        codes.len() > 0,
        k >= 1,
        is_quantised(codes, k, leaves),
        leaves.len() <= usize::MAX,
        0 <= m <= leaves.len(),
    ensures
        0 <= leaf_total(leaves, m) <= codes.len(),
{
    let list = leaf_list(codes, stop_at(codes, k, 7, cells(codes, 7).len() as int));
    let keys = path_keys(list);
    key_order_exists(keys);
    let order = key_order(keys);
    let sorted = Seq::new(m as nat, |t: int| list[order[t] as int]);
    leaves_share_no_pixel(codes, k, codes.len() as int);
    sorted_total(codes, leaves, sorted, m);
    sorted_few(codes, sorted, codes.len() as int);
}

proof fn sorted_total(
    codes: Seq<int>,
    leaves: Seq<OctreeLeaf>,
    sorted: Seq<(int, int)>,
    m: int,
)
    requires
        0 <= m <= sorted.len() <= leaves.len(),
        forall|t: int|
            #![trigger sorted[t]]
            0 <= t < sorted.len() ==> leaf_is(codes, leaves[t], sorted[t]),
    ensures
        leaf_total(leaves, m) == held_in_all(sorted, codes, m, codes.len() as int),
        leaf_total(leaves, m) >= 0,
    decreases m,
{
    if m > 0 {
        sorted_total(codes, leaves, sorted, m - 1);
        assert(leaf_is(codes, leaves[m - 1], sorted[m - 1]));
    }
}

proof fn sorted_few(codes: Seq<int>, sorted: Seq<(int, int)>, n: int)
    requires
        0 <= n <= codes.len(),
        forall|s: int, t: int, i: int|
            #![trigger sorted[s], sorted[t], codes[i]]
            0 <= s < t < sorted.len() && 0 <= i < codes.len() ==> !(leaf_holds(sorted[s], codes[i])
                && leaf_holds(sorted[t], codes[i])),
    ensures
        held_in_all(sorted, codes, sorted.len() as int, n) <= n,
    decreases n,
{
    if n == 0 {
        held_none(sorted, codes, sorted.len() as int);
    } else {
        sorted_few(codes, sorted, n - 1);
        assert forall|s: int, t: int|
            #![trigger sorted[s], sorted[t]]
            0 <= s < t < sorted.len() implies !(leaf_holds(sorted[s], codes[n - 1]) && leaf_holds(
            sorted[t],
            codes[n - 1],
        )) by {
            let c = codes[n - 1];
            assert(!(leaf_holds(sorted[s], codes[n - 1]) && leaf_holds(sorted[t], codes[n - 1])));
        }
        held_one_more(sorted, codes, sorted.len() as int, n);
    }
}

} // verus!
