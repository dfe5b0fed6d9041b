//! Stable ordering by integer keys.

use vstd::prelude::*;

verus! {

/// `p` lists each index below `n` exactly once.
pub open spec fn is_permutation(p: Seq<usize>, n: int) -> bool {
    &&& p.len() == n
    &&& forall|i: int| #![trigger p[i]] 0 <= i < p.len() ==> p[i] < n
    &&& forall|i: int, j: int|
        #![trigger p[i], p[j]]
        0 <= i < j < p.len() ==> p[i] != p[j]
}

/// Index `a` comes before index `b` when ordered by key, the earlier index first
/// among equal keys.
pub open spec fn precedes(keys: Seq<u64>, a: int, b: int) -> bool {
    keys[a] < keys[b] || (keys[a] == keys[b] && a < b)
}

/// `p` is in key order, equal keys in index order.
pub open spec fn in_order(keys: Seq<u64>, p: Seq<usize>) -> bool {
    forall|i: int, j: int|
        #![trigger p[i], p[j]]
        0 <= i < j < p.len() ==> precedes(keys, p[i] as int, p[j] as int)
}

/// The run of indices `lo..hi`.
spec fn covers(p: Seq<usize>, lo: int, hi: int) -> bool {
    &&& p.len() == hi - lo
    &&& forall|i: int| #![trigger p[i]] 0 <= i < p.len() ==> lo <= p[i] < hi
}

/// The indices of `keys` in stable key order.
pub fn stable_order(keys: &[u64]) -> (p: Vec<usize>)
    ensures
        is_permutation(p@, keys@.len() as int),
        in_order(keys@, p@),
        p@ == key_order(keys@),
        forall|i: int, j: int|
            #![trigger p@[i], p@[j]]
            0 <= i < j < p@.len() ==> keys@[p@[i] as int] <= keys@[p@[j] as int] && (
            keys@[p@[i] as int] == keys@[p@[j] as int] ==> p@[i] < p@[j]),
{
    let p = sort_run(keys, 0, keys.len());
    proof {
        order_unique(keys@, p@, key_order(keys@));
    }
    p
}

fn sort_run(keys: &[u64], lo: usize, hi: usize) -> (p: Vec<usize>)
    requires
        lo <= hi <= keys@.len(),
    ensures
        covers(p@, lo as int, hi as int),
        in_order(keys@, p@),
    decreases hi - lo,
{
    if hi - lo == 0 {
        return Vec::new();
    }
    if hi - lo == 1 {
        let mut p: Vec<usize> = Vec::new();
        p.push(lo);
        return p;
    }
    let mid: usize = lo + (hi - lo) / 2;
    let left = sort_run(keys, lo, mid);
    let right = sort_run(keys, mid, hi);
    merge_runs(keys, &left, &right, Ghost(lo as int), Ghost(mid as int), Ghost(hi as int))
}

fn merge_runs(
    keys: &[u64],
    left: &Vec<usize>,
    right: &Vec<usize>,
    Ghost(lo): Ghost<int>,
    Ghost(mid): Ghost<int>,
    Ghost(hi): Ghost<int>,
) -> (p: Vec<usize>)
    requires
        0 <= lo <= mid <= hi <= keys@.len(),
        covers(left@, lo, mid),
        covers(right@, mid, hi),
        in_order(keys@, left@),
        in_order(keys@, right@),
    ensures
        covers(p@, lo, hi),
        in_order(keys@, p@),
{
    let mut p: Vec<usize> = Vec::new();
    let mut i: usize = 0;
    let mut j: usize = 0;
    while i < left.len() || j < right.len()
        invariant
            0 <= lo <= mid <= hi <= keys@.len(),
            covers(left@, lo, mid),
            covers(right@, mid, hi),
            in_order(keys@, left@),
            in_order(keys@, right@),
            i <= left@.len(),
            j <= right@.len(),
            p@.len() == i + j,
            forall|k: int| #![trigger p@[k]] 0 <= k < p@.len() ==> lo <= p@[k] < hi,
            in_order(keys@, p@),
            forall|k: int, m: int|
                #![trigger p@[k], left@[m]]
                0 <= k < p@.len() && i <= m < left@.len() ==> precedes(
                    keys@,
                    p@[k] as int,
                    left@[m] as int,
                ),
            forall|k: int, m: int|
                #![trigger p@[k], right@[m]]
                0 <= k < p@.len() && j <= m < right@.len() ==> precedes(
                    keys@,
                    p@[k] as int,
                    right@[m] as int,
                ),
        decreases left@.len() - i + right@.len() - j,
    {
        let take_left: bool = if i >= left.len() {
            false
        } else if j >= right.len() {
            true
        } else {
            keys[left[i]] <= keys[right[j]]
        };
        let ghost before = p@;
        if take_left {
            p.push(left[i]);
            i += 1;
        } else {
            p.push(right[j]);
            j += 1;
        }
    }
    p
}

/// A permutation of `0..n` reaches every index below `n`.
pub proof fn permutation_reaches(p: Seq<usize>, n: int, v: int)
    requires
        is_permutation(p, n),
        0 <= v < n,
    ensures
        exists|i: int| 0 <= i < p.len() && p[i] == v,
{
    if forall|i: int| 0 <= i < p.len() ==> p[i] != v {
        let s = p.to_set();
        p.unique_seq_to_set();
        let ints = vstd::set_lib::set_int_range(0, n);
        let f = |k: usize| k as int;
        let mapped = s.map(f);
        vstd::set_lib::lemma_int_range(0, n);
        assert(mapped.subset_of(ints.remove(v))) by {
            assert forall|x: int| mapped.contains(x) implies ints.remove(v).contains(x) by {
                let k = choose|k: usize| s.contains(k) && k as int == x;
                let i = choose|i: int| 0 <= i < p.len() && p[i] == k;
                assert(p[i] == k);
            }
        }
        vstd::set_lib::lemma_map_size(s, mapped, f);
        vstd::set_lib::lemma_len_subset(mapped, ints.remove(v));
    }
}

/// There is only one permutation in key order.
pub proof fn order_unique(keys: Seq<u64>, p: Seq<usize>, q: Seq<usize>)
    requires
        is_permutation(p, keys.len() as int),
        is_permutation(q, keys.len() as int),
        in_order(keys, p),
        in_order(keys, q),
    ensures
        p == q,
{
    order_prefix(keys, p, q, keys.len() as int);
    assert(p =~= q);
}

proof fn order_prefix(keys: Seq<u64>, p: Seq<usize>, q: Seq<usize>, m: int)
    requires
        is_permutation(p, keys.len() as int),
        is_permutation(q, keys.len() as int),
        in_order(keys, p),
        in_order(keys, q),
        0 <= m <= keys.len(),
    ensures
        forall|k: int| #![trigger p[k]] #![trigger q[k]] 0 <= k < m ==> p[k] == q[k],
    decreases m,
{
    if m > 0 {
        order_prefix(keys, p, q, m - 1);
        let k = m - 1;
        if p[k] != q[k] {
            permutation_reaches(q, keys.len() as int, p[k] as int);
            permutation_reaches(p, keys.len() as int, q[k] as int);
            let j = choose|j: int| 0 <= j < q.len() && q[j] == p[k] as int;
            let i = choose|i: int| 0 <= i < p.len() && p[i] == q[k] as int;
            if j < k {
                assert(p[j] == q[j]);
            }
            if i < k {
                assert(p[i] == q[i]);
            }
            assert(precedes(keys, q[k] as int, q[j] as int));
            assert(precedes(keys, p[k] as int, p[i] as int));
        }
    }
}

/// There is a permutation in key order.
pub proof fn key_order_exists(keys: Seq<u64>)
    requires
        keys.len() <= usize::MAX,
    ensures
        is_permutation(key_order(keys), keys.len() as int),
        in_order(keys, key_order(keys)),
    decreases keys.len(),
{
    let n = keys.len() as int;
    if n == 0 {
        let p = Seq::<usize>::empty();
        assert(is_permutation(p, n) && in_order(keys, p));
    } else {
        let short = keys.drop_last();
        key_order_exists(short);
        let q = key_order(short);
        let last = keys[n - 1];
        let j = place(short, q, last, n - 1);
        place_splits(short, q, last, n - 1);
        let p = q.insert(j, (n - 1) as usize);
        assert forall|i: int| #![trigger p[i]] 0 <= i < p.len() implies p[i] < n && (i != j
            ==> p[i] < n - 1) by {
            if i < j {
                assert(p[i] == q[i]);
            } else if i > j {
                assert(p[i] == q[i - 1]);
            }
        }
        assert forall|a: int, b: int| #![trigger p[a], p[b]] 0 <= a < b < p.len() implies p[a]
            != p[b] && precedes(keys, p[a] as int, p[b] as int) by {
            let qa = if a < j {
                a
            } else {
                a - 1
            };
            let qb = if b < j {
                b
            } else {
                b - 1
            };
            if a != j {
                assert(p[a] == q[qa]);
                assert(short[q[qa] as int] == keys[q[qa] as int]);
            }
            if b != j {
                assert(p[b] == q[qb]);
                assert(short[q[qb] as int] == keys[q[qb] as int]);
            }
            if a != j && b != j {
                assert(q[qa] != q[qb]);
                assert(precedes(short, q[qa] as int, q[qb] as int));
            }
        }
        assert(is_permutation(p, n) && in_order(keys, p));
    }
}

/// Number of leading entries of `q`, among the first `m`, whose keys are at most
/// `last`.
spec fn place(keys: Seq<u64>, q: Seq<usize>, last: u64, m: int) -> int
    decreases m,
{
    if m <= 0 {
        0
    } else if place(keys, q, last, m - 1) == m - 1 && keys[q[m - 1] as int] <= last {
        m
    } else {
        place(keys, q, last, m - 1)
    }
}

proof fn place_splits(keys: Seq<u64>, q: Seq<usize>, last: u64, m: int)
    requires
        is_permutation(q, keys.len() as int),
        in_order(keys, q),
        0 <= m <= q.len(),
    ensures
        0 <= place(keys, q, last, m) <= m,
        forall|i: int|
            #![trigger q[i]]
            0 <= i < place(keys, q, last, m) ==> keys[q[i] as int] <= last,
        forall|i: int|
            #![trigger q[i]]
            place(keys, q, last, m) <= i < m ==> keys[q[i] as int] > last,
    decreases m,
{
    if m > 0 {
        place_splits(keys, q, last, m - 1);
        let j = place(keys, q, last, m - 1);
        if j < m - 1 {
            assert(keys[q[j] as int] > last);
            assert(precedes(keys, q[j] as int, q[m - 1] as int));
        }
    }
}

/// The permutation in key order.
pub open spec fn key_order(keys: Seq<u64>) -> Seq<usize> {
    choose|p: Seq<usize>| is_permutation(p, keys.len() as int) && in_order(keys, p)
}

} // verus!
