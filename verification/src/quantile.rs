//! Order statistics of numbers.

use vstd::prelude::*;
use crate::order::{
    in_order, is_permutation, order_unique, permutation_reaches, precedes, stable_order,
};
use crate::scalar::Scalar;

verus! {

/// None of the values is a NaN.
pub open spec fn all_numbers(data: Seq<Scalar>) -> bool {
    forall|i: int| #![trigger data[i]] 0 <= i < data.len() ==> !data[i].is_nan()
}

/// The sort keys of numbers.
pub open spec fn ordinals(data: Seq<Scalar>) -> Seq<u64> {
    Seq::new(data.len(), |i: int| data[i].ordinal() as u64)
}

/// `p` lists the positions of `data` from the least to the greatest value,
/// equal values in order of position.
pub open spec fn ascending(data: Seq<Scalar>, p: Seq<usize>) -> bool {
    is_permutation(p, data.len() as int) && in_order(ordinals(data), p)
}

/// `v` stands at position `pos` when `data` is sorted in ascending order.
pub open spec fn ranked(data: Seq<Scalar>, pos: int, v: Scalar) -> bool {
    exists|p: Seq<usize>| #[trigger] ascending(data, p) && v == data[p[pos] as int]
}

/// The positions of `data` from the least to the greatest value.
pub fn sort_positions(data: &[Scalar]) -> (p: Vec<usize>)
    requires
        all_numbers(data@),
    ensures
        ascending(data@, p@),
{
    let mut keys: Vec<u64> = Vec::new();
    let mut i: usize = 0;
    while i < data.len()
        invariant
            i <= data@.len(),
            all_numbers(data@),
            keys@.len() == i,
            forall|k: int| #![trigger keys@[k]] 0 <= k < i ==> keys@[k] == ordinals(data@)[k],
        decreases data@.len() - i,
    {
        assert(!data@[i as int].is_nan());
        keys.push(data[i].sort_key());
        i += 1;
    }
    assert(keys@ =~= ordinals(data@));
    stable_order(&keys)
}

/// The value at position `pos` in ascending order; the last one if there are not
/// that many.
pub fn value_at_rank(data: &[Scalar], pos: usize) -> (v: Scalar)
    requires
        all_numbers(data@),
        data@.len() > 0,
    ensures
        ranked(
            data@,
            if pos < data@.len() {
                pos as int
            } else {
                data@.len() - 1
            },
            v,
        ),
{
    let p = sort_positions(data);
    let at: usize = if pos < data.len() {
        pos
    } else {
        data.len() - 1
    };
    data[p[at]]
}

/// The upper median: the value in the middle of the sorted order, or zero where
/// there is none.
pub fn robust_center(data: &[Scalar]) -> (v: Scalar)
    requires
        all_numbers(data@),
    ensures
        data@.len() == 0 ==> v.bits == 0,
        data@.len() > 0 ==> ranked(data@, data@.len() as int / 2, v),
        data@.len() > 0 ==> 2 * below(data@, v).len() <= data@.len() && 2 * above(data@, v).len()
            <= data@.len(),
{
    if data.len() == 0 {
        return Scalar::zero();
    }
    let v = value_at_rank(data, data.len() / 2);
    proof {
        middle_rank_is_median(data@, v);
    }
    v
}

/// The two values around the middle of the sorted order, the same one twice
/// where their number is odd: the median is halfway between them.
pub fn median_bounds(data: &[Scalar]) -> (r: Option<(Scalar, Scalar)>)
    requires
        all_numbers(data@),
    ensures
        r is None <==> data@.len() == 0,
        r is Some ==> exists|p: Seq<usize>|
            {
                let n = data@.len() as int;
                &&& #[trigger] ascending(data@, p)
                &&& r->Some_0.0 == data@[p[(n - 1) / 2] as int]
                &&& r->Some_0.1 == data@[p[n / 2] as int]
            },
{
    let n = data.len();
    if n == 0 {
        return None;
    }
    let p = sort_positions(data);
    Some((data[p[(n - 1) / 2]], data[p[n / 2]]))
}

/// The values of `data` that the indices pick.
pub open spec fn picked(data: Seq<Scalar>, indices: Seq<usize>) -> Seq<Scalar> {
    Seq::new(indices.len(), |k: int| data[indices[k] as int])
}

/// The upper median of the picked values.
pub fn median_value(data: &[Scalar], indices: &[usize]) -> (v: Scalar)
    requires
        all_numbers(data@),
        indices@.len() > 0,
        forall|k: int|
            #![trigger indices@[k]]
            0 <= k < indices@.len() ==> indices@[k] < data@.len(),
    ensures
        ranked(picked(data@, indices@), indices@.len() as int / 2, v),
{
    let mut vals: Vec<Scalar> = Vec::new();
    let mut k: usize = 0;
    while k < indices.len()
        invariant
            k <= indices@.len(),
            all_numbers(data@),
            forall|k: int|
                #![trigger indices@[k]]
                0 <= k < indices@.len() ==> indices@[k] < data@.len(),
            vals@.len() == k,
            all_numbers(vals@),
            forall|m: int|
                #![trigger vals@[m]]
                0 <= m < k ==> vals@[m] == picked(data@, indices@)[m],
        decreases indices@.len() - k,
    {
        assert(!data@[indices@[k as int] as int].is_nan());
        vals.push(data[indices[k]]);
        k += 1;
    }
    assert(vals@ =~= picked(data@, indices@));
    value_at_rank(&vals, vals.len() / 2)
}

/// No value at an earlier rank exceeds one at a later rank.
pub proof fn ranks_ascend(data: Seq<Scalar>, p: Seq<usize>, a: int, b: int)
    requires
        all_numbers(data),
        ascending(data, p),
        0 <= a <= b < data.len(),
    ensures
        data[p[a] as int].le(data[p[b] as int]),
{
    assert(p[a] < data.len() && p[b] < data.len());
    assert(!data[p[a] as int].is_nan() && !data[p[b] as int].is_nan());
    if a < b {
        assert(crate::order::precedes(ordinals(data), p[a] as int, p[b] as int));
    }
}

/// Bit pattern of one half.
pub const HALF_BITS: u64 = 0x3FE0_0000_0000_0000;

/// Position `i` of the data stands at rank `r` when sorted.
pub open spec fn stands_at(data: Seq<Scalar>, i: int, r: int) -> bool {
    exists|p: Seq<usize>| #[trigger] ascending(data, p) && 0 <= r < p.len() && p[r] == i
}

/// `v` is the rank of position `i` as a share of the last rank.
pub open spec fn rank_share<F: Fn(usize, usize) -> Scalar>(
    ratio: F,
    data: Seq<Scalar>,
    i: int,
    v: Scalar,
) -> bool {
    exists|r: usize| #[trigger]
        call_ensures(ratio, (r, (data.len() - 1) as usize), v) && stands_at(data, i, r as int)
}

/// The rank of each value as a share of the last rank; one half where there is but
/// one value.
pub fn percentile_ranks<F: Fn(usize, usize) -> Scalar>(data: &[Scalar], ratio: &F) -> (ranks: Vec<
    Scalar,
>)
    requires
        all_numbers(data@),
        forall|a: usize, b: usize| #[trigger] call_requires(*ratio, (a, b)),
    ensures
        ranks@.len() == data@.len(),
        data@.len() == 1 ==> ranks@[0].bits == HALF_BITS,
        data@.len() > 1 ==> forall|i: int|
            #![trigger ranks@[i]]
            0 <= i < ranks@.len() ==> rank_share(*ratio, data@, i, ranks@[i]),
{
    let n = data.len();
    let half = Scalar::new(HALF_BITS);
    let mut ranks: Vec<Scalar> = Vec::new();
    let mut i: usize = 0;
    while i < n
        invariant
            i <= n,
            ranks@.len() == i,
            forall|k: int| #![trigger ranks@[k]] 0 <= k < i ==> ranks@[k] == half,
        decreases n - i,
    {
        ranks.push(half);
        i += 1;
    }
    if n <= 1 {
        return ranks;
    }
    let p = sort_positions(data);
    let mut r: usize = 0;
    while r < n
        invariant
            r <= n,
            n == data@.len(),
            n > 1,
            ascending(data@, p@),
            forall|a: usize, b: usize| #[trigger] call_requires(*ratio, (a, b)),
            ranks@.len() == n,
            forall|k: int|
                #![trigger p@[k]]
                0 <= k < r ==> rank_share(*ratio, data@, p@[k] as int, ranks@[p@[k] as int]),
        decreases n - r,
    {
        assert(call_requires(*ratio, (r, (n - 1) as usize)));
        let v = ratio(r, n - 1);
        let ghost before = ranks@;
        assert(p@[r as int] < n);
        assert(stands_at(data@, p@[r as int] as int, r as int));
        assert(call_ensures(*ratio, (r, (data@.len() - 1) as usize), v));
        assert(rank_share(*ratio, data@, p@[r as int] as int, v));
        ranks.set(p[r], v);
        assert forall|k: int| #![trigger p@[k]] 0 <= k < r + 1 implies rank_share(
            *ratio,
            data@,
            p@[k] as int,
            ranks@[p@[k] as int],
        ) by {
            if k < r {
                assert(p@[k] != p@[r as int]);
                assert(ranks@[p@[k] as int] == before[p@[k] as int]);
            }
        }
        r += 1;
    }
    assert forall|i: int| #![trigger ranks@[i]] 0 <= i < ranks@.len() implies rank_share(
        *ratio,
        data@,
        i,
        ranks@[i],
    ) by {
        crate::order::permutation_reaches(p@, n as int, i);
        let k = choose|k: int| 0 <= k < p@.len() && p@[k] == i;
        assert(p@[k] as int == i);
    }
    ranks
}

/// The positions of values less than `v`.
pub open spec fn below(data: Seq<Scalar>, v: Scalar) -> Set<int> {
    vstd::set_lib::set_int_range(0, data.len() as int).filter(|i: int| data[i].lt(v))
}

/// No more values lie below the one at a rank than the rank says.
pub proof fn few_below_rank(data: Seq<Scalar>, pos: int, v: Scalar)
    requires
        all_numbers(data),
        0 <= pos < data.len(),
        ranked(data, pos, v),
    ensures
        below(data, v).len() <= pos,
{
    let p = choose|p: Seq<usize>| #[trigger] ascending(data, p) && v == data[p[pos] as int];
    let first = vstd::set_lib::set_int_range(0, pos);
    let at = |r: int| p[r] as int;
    let places = first.map(at);
    vstd::set_lib::lemma_int_range(0, pos);
    vstd::set_lib::lemma_int_range(0, data.len() as int);
    assert(below(data, v).subset_of(places)) by {
        assert forall|i: int| below(data, v).contains(i) implies places.contains(i) by {
            permutation_reaches(p, data.len() as int, i);
            let r = choose|r: int| 0 <= r < p.len() && p[r] == i;
            assert(!data[i].is_nan());
            assert(!v.is_nan());
            if r > pos {
                assert(precedes(ordinals(data), p[pos] as int, p[r] as int));
            }
            assert(first.contains(r));
            assert(at(r) == i);
        }
    }
    vstd::set_lib::lemma_map_size(first, places, at);
    vstd::set_lib::lemma_len_subset(below(data, v), places);
}

/// The positions of values greater than `v`.
pub open spec fn above(data: Seq<Scalar>, v: Scalar) -> Set<int> {
    vstd::set_lib::set_int_range(0, data.len() as int).filter(|i: int| v.lt(data[i]))
}

/// No more values lie above the one at a rank than there are later ranks.
pub proof fn few_above_rank(data: Seq<Scalar>, pos: int, v: Scalar)
    requires
        all_numbers(data),
        0 <= pos < data.len(),
        ranked(data, pos, v),
    ensures
        above(data, v).len() <= data.len() - 1 - pos,
{
    let n = data.len() as int;
    let p = choose|p: Seq<usize>| #[trigger] ascending(data, p) && v == data[p[pos] as int];
    let last = vstd::set_lib::set_int_range(pos + 1, n);
    let at = |r: int| p[r] as int;
    let places = last.map(at);
    vstd::set_lib::lemma_int_range(pos + 1, n);
    vstd::set_lib::lemma_int_range(0, n);
    assert(above(data, v).subset_of(places)) by {
        assert forall|i: int| above(data, v).contains(i) implies places.contains(i) by {
            permutation_reaches(p, n, i);
            let r = choose|r: int| 0 <= r < p.len() && p[r] == i;
            assert(!data[i].is_nan());
            assert(!v.is_nan());
            if r < pos {
                assert(precedes(ordinals(data), p[r] as int, p[pos] as int));
            }
            assert(last.contains(r));
            assert(at(r) == i);
        }
    }
    vstd::set_lib::lemma_map_size(last, places, at);
    vstd::set_lib::lemma_len_subset(above(data, v), places);
}

/// A value of the middle rank has no more than half of the values below it and no
/// more than half above it.
pub proof fn middle_rank_is_median(data: Seq<Scalar>, v: Scalar)
    requires
        all_numbers(data),
        data.len() > 0,
        ranked(data, data.len() as int / 2, v),
    ensures
        2 * below(data, v).len() <= data.len(),
        2 * above(data, v).len() <= data.len(),
{
    few_below_rank(data, data.len() as int / 2, v);
    few_above_rank(data, data.len() as int / 2, v);
}

/// Greater values have later ranks.
pub proof fn ranks_follow_values(data: Seq<Scalar>, i: int, j: int, r: int, s: int)
    requires
        all_numbers(data),
        0 <= i < data.len(),
        0 <= j < data.len(),
        stands_at(data, i, r),
        stands_at(data, j, s),
        data[i].lt(data[j]),
    ensures
        r < s,
{
    let p = choose|p: Seq<usize>|
        #[trigger] ascending(data, p) && 0 <= r < p.len() && p[r] == i;
    let q = choose|q: Seq<usize>|
        #[trigger] ascending(data, q) && 0 <= s < q.len() && q[s] == j;
    order_unique(ordinals(data), p, q);
    assert(!data[i].is_nan() && !data[j].is_nan());
    if s < r {
        ranks_ascend(data, p, s, r);
    }
}

/// Of the two values around the middle, no more than half of the values lie below
/// the first or above the second.
pub proof fn middle_values_halve(data: Seq<Scalar>, p: Seq<usize>)
    requires
        all_numbers(data),
        data.len() > 0,
        ascending(data, p),
    ensures
        ({
            let n = data.len() as int;
            let a = data[p[(n - 1) / 2] as int];
            let b = data[p[n / 2] as int];
            &&& a.le(b)
            &&& 2 * below(data, a).len() < n
            &&& 2 * above(data, b).len() < n
        }),
{
    let n = data.len() as int;
    let a = data[p[(n - 1) / 2] as int];
    let b = data[p[n / 2] as int];
    ranks_ascend(data, p, (n - 1) / 2, n / 2);
    assert(ranked(data, (n - 1) / 2, a));
    assert(ranked(data, n / 2, b));
    few_below_rank(data, (n - 1) / 2, a);
    few_above_rank(data, n / 2, b);
}

} // verus!
