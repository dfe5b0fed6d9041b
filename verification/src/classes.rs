//! Partitions of `0..n` in canonical form: every element is mapped to the least
//! member of its class.

use vstd::prelude::*;

verus! {

/// `c` maps each index to the least member of its class.
pub open spec fn is_classes(c: Seq<int>) -> bool {
    forall|i: int|
        #![trigger c[i]]
        0 <= i < c.len() ==> 0 <= c[i] <= i && c[c[i]] == c[i]
}

/// Every element alone.
pub open spec fn singletons(n: nat) -> Seq<int> {
    Seq::new(n, |i: int| i)
}

/// The partition in which the classes of `a` and `b` have become one.
pub open spec fn join(c: Seq<int>, a: int, b: int) -> Seq<int> {
    let lo = if c[a] <= c[b] { c[a] } else { c[b] };
    let hi = if c[a] <= c[b] { c[b] } else { c[a] };
    Seq::new(c.len(), |i: int| if c[i] == hi { lo } else { c[i] })
}

/// The partition of `0..n` that results from joining the ends of each edge in turn.
pub open spec fn join_all(n: nat, edges: Seq<(int, int)>) -> Seq<int>
    decreases edges.len(),
{
    if edges.len() == 0 {
        singletons(n)
    } else {
        let e = edges.last();
        join(join_all(n, edges.drop_last()), e.0, e.1)
    }
}

/// Whether every edge has both ends in `0..n`.
pub open spec fn edges_within(n: nat, edges: Seq<(int, int)>) -> bool {
    forall|k: int|
        #![trigger edges[k]]
        0 <= k < edges.len() ==> 0 <= edges[k].0 < n && 0 <= edges[k].1 < n
}

/// Number of classes whose least member is below `k`.
pub open spec fn leaders(c: Seq<int>, k: int) -> nat
    decreases k,
{
    if k <= 0 {
        0
    } else {
        leaders(c, k - 1) + if c[k - 1] == k - 1 { 1nat } else { 0nat }
    }
}

/// Number of the class of `i` when classes are counted by first appearance.
pub open spec fn class_number(c: Seq<int>, i: int) -> nat {
    leaders(c, c[i])
}

/// Number of classes.
pub open spec fn class_count(c: Seq<int>) -> nat {
    leaders(c, c.len() as int)
}

/// Number of elements below `k` whose class has the least member `v`.
pub open spec fn members(c: Seq<int>, v: int, k: int) -> nat
    decreases k,
{
    if k <= 0 {
        0
    } else {
        members(c, v, k - 1) + if c[k - 1] == v { 1nat } else { 0nat }
    }
}

/// Step `k` of the path goes along an edge, in either direction.
pub open spec fn path_step(edges: Seq<(int, int)>, path: Seq<int>, k: int) -> bool {
    edges.contains((path[k - 1], path[k])) || edges.contains((path[k], path[k - 1]))
}

/// Whether `path` walks from `i` to `j` along the edges, in either direction.
pub open spec fn is_path(edges: Seq<(int, int)>, path: Seq<int>, i: int, j: int) -> bool {
    &&& path.len() > 0
    &&& path[0] == i
    &&& path.last() == j
    &&& forall|k: int| 0 < k < path.len() ==> #[trigger] path_step(edges, path, k)
}

/// Whether the edges connect `i` to `j`.
pub open spec fn connected(edges: Seq<(int, int)>, i: int, j: int) -> bool {
    exists|path: Seq<int>| is_path(edges, path, i, j)
}

/// Joining two classes of a canonical partition gives a canonical partition in
/// which two elements share a class if they did before or if the join brings
/// them together.
pub proof fn join_is_classes(c: Seq<int>, a: int, b: int)
    requires
        is_classes(c),
        0 <= a < c.len(),
        0 <= b < c.len(),
    ensures
        is_classes(join(c, a, b)),
        join(c, a, b).len() == c.len(),
        forall|i: int, j: int|
            0 <= i < c.len() && 0 <= j < c.len() ==> (#[trigger] join(c, a, b)[i]
                == #[trigger] join(c, a, b)[j] <==> (c[i] == c[j] || (c[i] == c[a] && c[j] == c[b])
                || (c[i] == c[b] && c[j] == c[a]))),
{
    let d = join(c, a, b);
    let lo = if c[a] <= c[b] { c[a] } else { c[b] };
    let hi = if c[a] <= c[b] { c[b] } else { c[a] };
    assert forall|i: int| #![trigger d[i]] 0 <= i < d.len() implies 0 <= d[i] <= i && d[d[i]]
        == d[i] by {
        assert(0 <= c[i] <= i && c[c[i]] == c[i]);
        assert(c[lo] == lo);
        if c[i] == hi {
            assert(d[i] == lo);
            assert(d[lo] == lo);
        } else {
            assert(d[i] == c[i]);
        }
    }
}

/// The partition built from in-range edges is canonical.
pub proof fn join_all_is_classes(n: nat, edges: Seq<(int, int)>)
    requires
        edges_within(n, edges),
    ensures
        is_classes(join_all(n, edges)),
        join_all(n, edges).len() == n,
    decreases edges.len(),
{
    if edges.len() > 0 {
        let rest = edges.drop_last();
        assert(edges_within(n, rest)) by {
            assert forall|k: int| #![trigger rest[k]] 0 <= k < rest.len() implies 0 <= rest[k].0 < n
                && 0 <= rest[k].1 < n by {
                assert(rest[k] == edges[k]);
            }
        }
        join_all_is_classes(n, rest);
        assert(edges[edges.len() - 1] == edges.last());
        join_is_classes(join_all(n, rest), edges.last().0, edges.last().1);
    }
}

proof fn path_weaken(edges: Seq<(int, int)>, more: Seq<(int, int)>, path: Seq<int>, i: int, j: int)
    requires
        is_path(edges, path, i, j),
        forall|e: (int, int)| edges.contains(e) ==> more.contains(e),
    ensures
        is_path(more, path, i, j),
{
    assert forall|k: int| 0 < k < path.len() implies #[trigger] path_step(more, path, k) by {
        assert(path_step(edges, path, k));
    }
}

proof fn path_reverse(edges: Seq<(int, int)>, i: int, j: int)
    requires
        connected(edges, i, j),
    ensures
        connected(edges, j, i),
{
    let p = choose|path: Seq<int>| is_path(edges, path, i, j);
    let q = Seq::new(p.len(), |k: int| p[p.len() - 1 - k]);
    assert forall|k: int| 0 < k < q.len() implies #[trigger] path_step(edges, q, k) by {
        let m = p.len() - k;
        assert(path_step(edges, p, m));
        assert(q[k - 1] == p[m]);
        assert(q[k] == p[m - 1]);
    }
    assert(is_path(edges, q, j, i));
}

proof fn path_compose(edges: Seq<(int, int)>, i: int, j: int, k: int)
    requires
        connected(edges, i, j),
        connected(edges, j, k),
    ensures
        connected(edges, i, k),
{
    let p = choose|path: Seq<int>| is_path(edges, path, i, j);
    let q = choose|path: Seq<int>| is_path(edges, path, j, k);
    let r = p + q.subrange(1, q.len() as int);
    assert(r[0] == i);
    assert(r.last() == k) by {
        if q.len() > 1 {
            assert(r.last() == q.last());
        } else {
            assert(r =~= p);
        }
    }
    assert forall|m: int| 0 < m < r.len() implies #[trigger] path_step(edges, r, m) by {
        if m < p.len() {
            assert(path_step(edges, p, m));
            assert(r[m] == p[m] && r[m - 1] == p[m - 1]);
        } else {
            let t = m - p.len() + 1;
            assert(path_step(edges, q, t));
            assert(r[m] == q[t]);
            assert(r[m - 1] == q[t - 1]);
        }
    }
    assert(is_path(edges, r, i, k));
}

/// Two elements end in the same class exactly when a chain of edges leads from
/// one to the other.
pub proof fn join_all_is_connectivity(n: nat, edges: Seq<(int, int)>, i: int, j: int)
    requires
        edges_within(n, edges),
        0 <= i < n,
        0 <= j < n,
    ensures
        join_all(n, edges)[i] == join_all(n, edges)[j] <==> connected(edges, i, j),
{
    join_all_is_classes(n, edges);
    let c = join_all(n, edges);
    if c[i] == c[j] {
        same_class_is_connected(n, edges, i, j);
    }
    if connected(edges, i, j) {
        let p = choose|path: Seq<int>| is_path(edges, path, i, j);
        path_stays_in_class(n, edges, p, i, j);
    }
}

proof fn same_class_is_connected(n: nat, edges: Seq<(int, int)>, i: int, j: int)
    requires
        edges_within(n, edges),
        0 <= i < n,
        0 <= j < n,
        join_all(n, edges)[i] == join_all(n, edges)[j],
    ensures
        connected(edges, i, j),
    decreases edges.len(),
{
    if edges.len() == 0 {
        let p = seq![i];
        assert(is_path(edges, p, i, j));
    } else {
        let rest = edges.drop_last();
        let e = edges.last();
        assert(edges[edges.len() - 1] == e);
        assert forall|k: int| #![trigger rest[k]] 0 <= k < rest.len() implies 0 <= rest[k].0 < n
            && 0 <= rest[k].1 < n by {
            assert(rest[k] == edges[k]);
        }
        join_all_is_classes(n, rest);
        let c = join_all(n, rest);
        join_is_classes(c, e.0, e.1);
        assert forall|x: (int, int)| rest.contains(x) implies edges.contains(x) by {
            let k = choose|k: int| 0 <= k < rest.len() && rest[k] == x;
            assert(edges[k] == x);
        }
        assert(edges.contains(e));
        let d = join_all(n, edges);
        assert(d == join(c, e.0, e.1));
        let step = seq![e.0, e.1];
        assert(path_step(edges, step, 1));
        assert(is_path(edges, step, e.0, e.1));
        if c[i] == c[j] {
            same_class_is_connected(n, rest, i, j);
            let p = choose|path: Seq<int>| is_path(rest, path, i, j);
            path_weaken(rest, edges, p, i, j);
        } else if c[i] == c[e.0] && c[j] == c[e.1] {
            same_class_is_connected(n, rest, i, e.0);
            same_class_is_connected(n, rest, e.1, j);
            let p = choose|path: Seq<int>| is_path(rest, path, i, e.0);
            path_weaken(rest, edges, p, i, e.0);
            let q = choose|path: Seq<int>| is_path(rest, path, e.1, j);
            path_weaken(rest, edges, q, e.1, j);
            path_compose(edges, i, e.0, e.1);
            path_compose(edges, i, e.1, j);
        } else {
            assert(d[i] == d[j]);
            assert(c[i] == c[e.1] && c[j] == c[e.0]);
            same_class_is_connected(n, rest, i, e.1);
            same_class_is_connected(n, rest, e.0, j);
            let p = choose|path: Seq<int>| is_path(rest, path, i, e.1);
            path_weaken(rest, edges, p, i, e.1);
            let q = choose|path: Seq<int>| is_path(rest, path, e.0, j);
            path_weaken(rest, edges, q, e.0, j);
            path_reverse(edges, e.0, e.1);
            path_compose(edges, i, e.1, e.0);
            path_compose(edges, i, e.0, j);
        }
    }
}

/// Both ends of every edge are in one class.
pub proof fn edge_ends_share_class(n: nat, edges: Seq<(int, int)>, k: int)
    requires
        edges_within(n, edges),
        0 <= k < edges.len(),
    ensures
        join_all(n, edges)[edges[k].0] == join_all(n, edges)[edges[k].1],
    decreases edges.len(),
{
    let rest = edges.drop_last();
    let e = edges.last();
    assert(edges[edges.len() - 1] == e);
    assert(0 <= edges[k].0 < n && 0 <= edges[k].1 < n);
    assert forall|k: int| #![trigger rest[k]] 0 <= k < rest.len() implies 0 <= rest[k].0 < n && 0
        <= rest[k].1 < n by {
        assert(rest[k] == edges[k]);
    }
    join_all_is_classes(n, rest);
    let c = join_all(n, rest);
    join_is_classes(c, e.0, e.1);
    let d = join(c, e.0, e.1);
    if k < rest.len() {
        edge_ends_share_class(n, rest, k);
        assert(rest[k] == edges[k]);
        assert(c[edges[k].0] == c[edges[k].1]);
        assert(d[edges[k].0] == d[edges[k].1]);
    } else {
        assert(d[e.0] == d[e.1]);
    }
}

proof fn path_stays_in_class(n: nat, edges: Seq<(int, int)>, p: Seq<int>, i: int, j: int)
    requires
        edges_within(n, edges),
        is_path(edges, p, i, j),
        0 <= i < n,
    ensures
        0 <= j < n,
        join_all(n, edges)[i] == join_all(n, edges)[j],
    decreases p.len(),
{
    if p.len() > 1 {
        let q = p.drop_last();
        let m = p[p.len() - 2];
        assert forall|k: int| 0 < k < q.len() implies #[trigger] path_step(edges, q, k) by {
            assert(path_step(edges, p, k));
            assert(p[k] == q[k] && p[k - 1] == q[k - 1]);
        }
        assert(is_path(edges, q, i, m));
        path_stays_in_class(n, edges, q, i, m);
        assert(p[p.len() - 1] == j);
        assert(path_step(edges, p, p.len() - 1));
        if edges.contains((m, j)) {
            let k = choose|k: int| 0 <= k < edges.len() && edges[k] == (m, j);
            edge_ends_share_class(n, edges, k);
        } else {
            assert(edges.contains((j, m)));
            let k = choose|k: int| 0 <= k < edges.len() && edges[k] == (j, m);
            edge_ends_share_class(n, edges, k);
        }
    }
}

/// `leaders` grows with its bound, by at most one per step.
pub proof fn leaders_monotone(c: Seq<int>, j: int, k: int)
    requires
        0 <= j <= k,
    ensures
        leaders(c, j) <= leaders(c, k) <= leaders(c, j) + (k - j),
    decreases k - j,
{
    if j < k {
        leaders_monotone(c, j, k - 1);
    }
}

/// Class numbers are dense: each lies below the number of classes, and elements
/// have the same number exactly when they share a class.
pub proof fn class_numbers_dense(c: Seq<int>, i: int, j: int)
    requires
        is_classes(c),
        0 <= i < c.len(),
        0 <= j < c.len(),
    ensures
        class_number(c, i) < class_count(c),
        class_number(c, i) == class_number(c, j) <==> c[i] == c[j],
        c[i] < c[j] ==> class_number(c, i) < class_number(c, j),
{
    assert(c[c[i]] == c[i]);
    assert(c[c[j]] == c[j]);
    leaders_monotone(c, c[i] + 1, c.len() as int);
    if c[i] < c[j] {
        leaders_monotone(c, c[i] + 1, c[j]);
    } else if c[j] < c[i] {
        leaders_monotone(c, c[j] + 1, c[i]);
    }
}

/// Every number below the number of classes is the number of some element, its
/// class leader.
pub proof fn class_number_attained(c: Seq<int>, r: nat) -> (i: int)
    requires
        is_classes(c),
        r < class_count(c),
    ensures
        0 <= i < c.len(),
        c[i] == i,
        class_number(c, i) == r,
{
    leader_with_number(c, c.len() as int, r)
}

proof fn leader_with_number(c: Seq<int>, k: int, r: nat) -> (i: int)
    requires
        0 <= k <= c.len(),
        r < leaders(c, k),
    ensures
        0 <= i < k,
        c[i] == i,
        leaders(c, i) == r,
    decreases k,
{
    if r < leaders(c, k - 1) {
        leader_with_number(c, k - 1, r)
    } else {
        k - 1
    }
}

/// Two different classes have together no more members than there are elements.
pub proof fn members_disjoint(c: Seq<int>, u: int, v: int, k: int)
    requires
        u != v,
        0 <= k,
    ensures
        members(c, u, k) + members(c, v, k) <= k,
    decreases k,
{
    if k > 0 {
        members_disjoint(c, u, v, k - 1);
    }
}

/// Joining adds up the member counts of the two classes and leaves the others.
pub proof fn members_of_join(c: Seq<int>, a: int, b: int, v: int, k: int)
    requires
        is_classes(c),
        0 <= a < c.len(),
        0 <= b < c.len(),
        c[a] != c[b],
        0 <= k <= c.len(),
    ensures
        v != c[a] && v != c[b] ==> members(join(c, a, b), v, k) == members(c, v, k),
        v == join(c, a, b)[a] ==> members(join(c, a, b), v, k) == members(c, c[a], k) + members(
            c,
            c[b],
            k,
        ),
    decreases k,
{
    if k > 0 {
        members_of_join(c, a, b, v, k - 1);
    }
}

} // verus!
