//! Median cut: dividing pixels by sorting them along the widest axis.

use vstd::prelude::*;
use crate::order::{is_permutation, key_order};
use crate::quantile::{all_numbers, ordinals, picked, sort_positions};
use crate::scalar::Scalar;

verus! {

/// The least of the first `k` values, the first among equals.
pub open spec fn lowest(vals: Seq<Scalar>, k: int) -> Scalar
    decreases k,
{
    if k <= 1 {
        vals[0]
    } else {
        let before = lowest(vals, k - 1);
        if vals[k - 1].lt(before) {
            vals[k - 1]
        } else {
            before
        }
    }
}

/// The greatest of the first `k` values, the first among equals.
pub open spec fn highest(vals: Seq<Scalar>, k: int) -> Scalar
    decreases k,
{
    if k <= 1 {
        vals[0]
    } else {
        let before = highest(vals, k - 1);
        if before.lt(vals[k - 1]) {
            vals[k - 1]
        } else {
            before
        }
    }
}

/// `width` answers for every two values, always the same.
pub open spec fn is_width<W: Fn(Scalar, Scalar) -> Scalar>(width: W) -> bool {
    &&& forall|a: Scalar, b: Scalar| #[trigger] call_requires(width, (a, b))
    &&& forall|a: Scalar, b: Scalar, r: Scalar, s: Scalar|
        #![trigger call_ensures(width, (a, b), r), call_ensures(width, (a, b), s)]
        call_ensures(width, (a, b), r) && call_ensures(width, (a, b), s) ==> r == s
}

/// How far it is from `lo` to `hi`.
pub open spec fn span<W: Fn(Scalar, Scalar) -> Scalar>(width: W, lo: Scalar, hi: Scalar) -> Scalar {
    choose|r: Scalar| call_ensures(width, (lo, hi), r)
}

/// The range of the picked values.
pub open spec fn range_of<W: Fn(Scalar, Scalar) -> Scalar>(
    data: Seq<Scalar>,
    indices: Seq<usize>,
    width: W,
) -> Scalar {
    let vals = picked(data, indices);
    span(width, lowest(vals, vals.len() as int), highest(vals, vals.len() as int))
}

/// The axes of a colour space.
pub struct Axes<'a> {
    pub x: &'a [Scalar],
    pub y: &'a [Scalar],
    pub z: &'a [Scalar],
}

impl<'a> Axes<'a> {
    /// The coordinates are numbers, as many on each axis.
    pub open spec fn wf(self) -> bool {
        &&& all_numbers(self.x@)
        &&& all_numbers(self.y@)
        &&& all_numbers(self.z@)
        &&& self.y@.len() == self.x@.len()
        &&& self.z@.len() == self.x@.len()
    }

    /// The coordinates on one axis.
    pub open spec fn axis(self, d: int) -> Seq<Scalar> {
        if d == 0 {
            self.x@
        } else if d == 1 {
            self.y@
        } else {
            self.z@
        }
    }

    fn on(&self, d: usize) -> (s: &'a [Scalar])
        requires
            self.wf(),
        ensures
            s@ == self.axis(d as int),
            all_numbers(s@),
            s@.len() == self.x@.len(),
    {
        if d == 0 {
            self.x
        } else if d == 1 {
            self.y
        } else {
            self.z
        }
    }
}

/// The indices name pixels of an image of `n`.
pub open spec fn indices_within(indices: Seq<usize>, n: int) -> bool {
    forall|k: int| #![trigger indices[k]] 0 <= k < indices.len() ==> indices[k] < n
}

/// The widest axis, the last among equals.
pub open spec fn longest<W: Fn(Scalar, Scalar) -> Scalar>(
    axes: Axes,
    indices: Seq<usize>,
    width: W,
) -> int {
    let r0 = range_of(axes.axis(0), indices, width);
    let r1 = range_of(axes.axis(1), indices, width);
    let r2 = range_of(axes.axis(2), indices, width);
    if r1.lt(r0) {
        if r2.lt(r0) {
            0
        } else {
            2
        }
    } else if r2.lt(r1) {
        1
    } else {
        2
    }
}

/// The widest axis, the first among equals.
pub open spec fn first_longest<W: Fn(Scalar, Scalar) -> Scalar>(
    axes: Axes,
    indices: Seq<usize>,
    width: W,
) -> int {
    let r0 = range_of(axes.axis(0), indices, width);
    let r1 = range_of(axes.axis(1), indices, width);
    let r2 = range_of(axes.axis(2), indices, width);
    if r1.le(r0) && r2.le(r0) {
        0
    } else if r2.le(r1) {
        1
    } else {
        2
    }
}

/// Every value lies between the lowest and the highest of the first `k`, which
/// are values themselves.
proof fn extremes_bound(vals: Seq<Scalar>, k: int)
    requires
        1 <= k <= vals.len(),
        all_numbers(vals),
    ensures
        forall|i: int|
            #![trigger vals[i]]
            0 <= i < k ==> lowest(vals, k).le(vals[i]) && vals[i].le(highest(vals, k)),
        exists|i: int| #![trigger vals[i]] 0 <= i < k && lowest(vals, k) == vals[i],
        exists|i: int| #![trigger vals[i]] 0 <= i < k && highest(vals, k) == vals[i],
    decreases k,
{
    assert(!vals[0].is_nan());
    if k > 1 {
        extremes_bound(vals, k - 1);
        assert(!vals[k - 1].is_nan());
    } else {
        assert(vals[0] == lowest(vals, 1));
    }
}

/// The range of picked values goes from a least of them to a greatest.
pub proof fn range_spans_values<W: Fn(Scalar, Scalar) -> Scalar>(
    data: Seq<Scalar>,
    indices: Seq<usize>,
    width: W,
) -> (ends: (int, int))
    requires
        indices.len() > 0,
        indices_within(indices, data.len() as int),
        all_numbers(data),
    ensures
        0 <= ends.0 < indices.len(),
        0 <= ends.1 < indices.len(),
        range_of(data, indices, width) == span(
            width,
            data[indices[ends.0] as int],
            data[indices[ends.1] as int],
        ),
        forall|k: int|
            #![trigger indices[k]]
            0 <= k < indices.len() ==> data[indices[ends.0] as int].le(data[indices[k] as int])
                && data[indices[k] as int].le(data[indices[ends.1] as int]),
{
    let vals = picked(data, indices);
    let n = vals.len() as int;
    assert forall|k: int| #![trigger vals[k]] 0 <= k < n implies !vals[k].is_nan() by {
        assert(indices[k] < data.len());
        assert(!data[indices[k] as int].is_nan());
    }
    extremes_bound(vals, n);
    let a = choose|i: int| #![trigger vals[i]] 0 <= i < n && lowest(vals, n) == vals[i];
    let b = choose|i: int| #![trigger vals[i]] 0 <= i < n && highest(vals, n) == vals[i];
    assert forall|k: int| #![trigger indices[k]] 0 <= k < indices.len() implies data[
        indices[a] as int].le(data[indices[k] as int]) && data[indices[k] as int].le(
        data[indices[b] as int],
    ) by {
        assert(vals[k] == data[indices[k] as int]);
    }
    (a, b)
}

/// Where the ranges are numbers, none of the three axes has a wider range than
/// the one that is cut, and every later axis has a narrower one.
pub proof fn longest_is_widest<W: Fn(Scalar, Scalar) -> Scalar>(
    axes: Axes,
    indices: Seq<usize>,
    width: W,
)
    requires
        !range_of(axes.x@, indices, width).is_nan(),
        !range_of(axes.y@, indices, width).is_nan(),
        !range_of(axes.z@, indices, width).is_nan(),
    ensures
        ({
            let d = longest(axes, indices, width);
            let x = range_of(axes.x@, indices, width);
            let y = range_of(axes.y@, indices, width);
            let z = range_of(axes.z@, indices, width);
            &&& 0 <= d <= 2
            &&& d == 0 ==> axes.axis(d) == axes.x@ && y.lt(x) && z.lt(x)
            &&& d == 1 ==> axes.axis(d) == axes.y@ && x.le(y) && z.lt(y)
            &&& d == 2 ==> axes.axis(d) == axes.z@ && x.le(z) && y.le(z)
        }),
{
}

/// Where the ranges are numbers, none of the three axes has a wider range than
/// the one that is halved, and every earlier axis has a narrower one.
pub proof fn first_longest_is_widest<W: Fn(Scalar, Scalar) -> Scalar>(
    axes: Axes,
    indices: Seq<usize>,
    width: W,
)
    requires
        !range_of(axes.x@, indices, width).is_nan(),
        !range_of(axes.y@, indices, width).is_nan(),
        !range_of(axes.z@, indices, width).is_nan(),
    ensures
        ({
            let d = first_longest(axes, indices, width);
            let x = range_of(axes.x@, indices, width);
            let y = range_of(axes.y@, indices, width);
            let z = range_of(axes.z@, indices, width);
            &&& 0 <= d <= 2
            &&& d == 0 ==> axes.axis(d) == axes.x@ && y.le(x) && z.le(x)
            &&& d == 1 ==> axes.axis(d) == axes.y@ && x.lt(y) && z.le(y)
            &&& d == 2 ==> axes.axis(d) == axes.z@ && x.lt(z) && y.lt(z)
        }),
{
}

fn measure_range<W: Fn(Scalar, Scalar) -> Scalar>(
    data: &[Scalar],
    indices: &[usize],
    width: &W,
) -> (r: Scalar)
    requires
        indices@.len() > 0,
        indices_within(indices@, data@.len() as int),
        is_width(*width),
    ensures
        r == range_of(data@, indices@, *width),
{
    let ghost vals = picked(data@, indices@);
    assert(indices@[0] < data@.len());
    let mut lo = data[indices[0]];
    let mut hi = data[indices[0]];
    let mut k: usize = 1;
    while k < indices.len()
        invariant
            1 <= k <= indices@.len(),
            indices_within(indices@, data@.len() as int),
            vals == picked(data@, indices@),
            lo == lowest(vals, k as int),
            hi == highest(vals, k as int),
        decreases indices@.len() - k,
    {
        assert(indices@[k as int] < data@.len());
        let v = data[indices[k]];
        if v.less(&lo) {
            lo = v;
        }
        if hi.less(&v) {
            hi = v;
        }
        k += 1;
    }
    let r = (*width)(lo, hi);
    assert(r == span(*width, lo, hi));
    r
}

/// The widest axis of the picked pixels, the last among equals.
pub fn longest_axis<W: Fn(Scalar, Scalar) -> Scalar>(
    axes: &Axes,
    indices: &[usize],
    width: &W,
) -> (d: usize)
    requires
        axes.wf(),
        indices@.len() > 0,
        indices_within(indices@, axes.x@.len() as int),
        is_width(*width),
    ensures
        d == longest(*axes, indices@, *width),
        d <= 2,
        forall|e: int|
            0 <= e <= 2 && (forall|f: int|
                0 <= f <= 2 ==> !(#[trigger] range_of(axes.axis(f), indices@, *width)).is_nan())
                ==> (#[trigger] range_of(axes.axis(e), indices@, *width)).le(
                range_of(axes.axis(d as int), indices@, *width),
            ),
{
    let r0 = measure_range(axes.on(0), indices, width);
    let r1 = measure_range(axes.on(1), indices, width);
    let r2 = measure_range(axes.on(2), indices, width);
    if r1.less(&r0) {
        if r2.less(&r0) {
            0
        } else {
            2
        }
    } else if r2.less(&r1) {
        1
    } else {
        2
    }
}

/// The indices in ascending order of their value, equal values as they were.
pub open spec fn sorted_by(data: Seq<Scalar>, indices: Seq<usize>) -> Seq<usize> {
    let order = key_order(ordinals(picked(data, indices)));
    Seq::new(indices.len(), |k: int| indices[order[k] as int])
}

fn sort_indices(data: &[Scalar], indices: &[usize]) -> (out: Vec<usize>)
    requires
        all_numbers(data@),
        indices_within(indices@, data@.len() as int),
    ensures
        out@ == sorted_by(data@, indices@),
        out@.len() == indices@.len(),
        indices_within(out@, data@.len() as int),
        out@.to_multiset() == indices@.to_multiset(),
{
    let mut vals: Vec<Scalar> = Vec::new();
    let mut k: usize = 0;
    while k < indices.len()
        invariant
            k <= indices@.len(),
            all_numbers(data@),
            indices_within(indices@, data@.len() as int),
            vals@.len() == k,
            all_numbers(vals@),
            forall|m: int|
                #![trigger vals@[m]]
                0 <= m < k ==> vals@[m] == picked(data@, indices@)[m],
        decreases indices@.len() - k,
    {
        assert(indices@[k as int] < data@.len());
        assert(!data@[indices@[k as int] as int].is_nan());
        vals.push(data[indices[k]]);
        k += 1;
    }
    assert(vals@ =~= picked(data@, indices@));
    let order = sort_positions(&vals);
    proof {
        crate::order::order_unique(ordinals(vals@), order@, key_order(ordinals(vals@)));
    }
    let mut out: Vec<usize> = Vec::new();
    let mut t: usize = 0;
    while t < order.len()
        invariant
            t <= order@.len(),
            indices_within(indices@, data@.len() as int),
            is_permutation(order@, indices@.len() as int),
            order@ == key_order(ordinals(picked(data@, indices@))),
            out@.len() == t,
            forall|m: int|
                #![trigger out@[m]]
                0 <= m < t ==> out@[m] == sorted_by(data@, indices@)[m] && out@[m] < data@.len(),
        decreases order@.len() - t,
    {
        assert(indices@[order@[t as int] as int] < data@.len());
        out.push(indices[order[t]]);
        t += 1;
    }
    proof {
        assert(out@ =~= sorted_by(data@, indices@));
        reordering_keeps(indices@, order@, out@);
    }
    out
}

/// Reordering keeps the elements.
proof fn reordering_keeps(s: Seq<usize>, p: Seq<usize>, out: Seq<usize>)
    requires
        is_permutation(p, s.len() as int),
        out.len() == s.len(),
        forall|k: int| #![trigger out[k]] 0 <= k < out.len() ==> out[k] == s[p[k] as int],
    ensures
        out.to_multiset() == s.to_multiset(),
    decreases s.len(),
{
    broadcast use vstd::seq_lib::group_to_multiset_ensures;

    if s.len() == 0 {
        assert(out =~= s);
    } else {
        let last = s.len() - 1;
        crate::order::permutation_reaches(p, s.len() as int, last);
        let at = choose|i: int| 0 <= i < p.len() && p[i] == last;
        let s1 = s.drop_last();
        let p1 = p.remove(at);
        let out1 = out.remove(at);
        assert(is_permutation(p1, s1.len() as int)) by {
            assert forall|i: int| #![trigger p1[i]] 0 <= i < p1.len() implies p1[i] < s1.len() by {
                let j = if i < at { i } else { i + 1 };
                assert(p1[i] == p[j]);
                assert(p[j] != p[at]);
            }
            assert forall|i: int, j: int|
                #![trigger p1[i], p1[j]]
                0 <= i < j < p1.len() implies p1[i] != p1[j] by {
                let a = if i < at { i } else { i + 1 };
                let b = if j < at { j } else { j + 1 };
                assert(p1[i] == p[a] && p1[j] == p[b]);
            }
        }
        assert forall|k: int| #![trigger out1[k]] 0 <= k < out1.len() implies out1[k]
            == s1[p1[k] as int] by {
            let j = if k < at { k } else { k + 1 };
            assert(out1[k] == out[j]);
            assert(p1[k] == p[j]);
            assert(p1[k] < s1.len());
        }
        reordering_keeps(s1, p1, out1);
        assert(s =~= s1.push(s[last]));
        assert(out[at] == s[last]);
        assert(s.to_multiset() =~= s1.to_multiset().insert(s[last]));
        removing_one(out, at);
        assert(out.to_multiset() =~= out1.to_multiset().insert(out[at]));
    }
}

proof fn removing_one(s: Seq<usize>, at: int)
    requires
        0 <= at < s.len(),
    ensures
        s.to_multiset() == s.remove(at).to_multiset().insert(s[at]),
{
    broadcast use vstd::seq_lib::group_to_multiset_ensures;

    let a = s.take(at);
    let b = s.skip(at + 1);
    let one = seq![s[at]];
    assert(s =~= a + (one + b));
    assert(s.remove(at) =~= a + b);
    vstd::seq_lib::lemma_multiset_commutative(a, one + b);
    vstd::seq_lib::lemma_multiset_commutative(one, b);
    vstd::seq_lib::lemma_multiset_commutative(a, b);
    assert(one =~= Seq::<usize>::empty().push(s[at]));
    assert(one.to_multiset() =~= vstd::multiset::Multiset::empty().insert(s[at]));
    assert(s.to_multiset() =~= s.remove(at).to_multiset().insert(s[at]));
}

/// The last of the first `k` buckets with the most pixels.
pub open spec fn largest(buckets: Seq<Seq<usize>>, k: int) -> int
    decreases k,
{
    if k <= 1 {
        0
    } else {
        let before = largest(buckets, k - 1);
        if buckets[k - 1].len() < buckets[before].len() {
            before
        } else {
            k - 1
        }
    }
}

/// The buckets after cutting the largest one in half, again and again, until
/// there are `target` or none can be cut.
pub open spec fn cut_largest<W: Fn(Scalar, Scalar) -> Scalar>(
    axes: Axes,
    width: W,
    buckets: Seq<Seq<usize>>,
    target: int,
) -> Seq<Seq<usize>>
    decreases target - buckets.len(),
{
    let i = largest(buckets, buckets.len() as int);
    if buckets.len() >= target || !(0 <= i < buckets.len()) || buckets[i].len() < 2 {
        buckets
    } else {
        let s = sorted_by(axes.axis(longest(axes, buckets[i], width)), buckets[i]);
        let mid = s.len() as int / 2;
        cut_largest(axes, width, buckets.update(i, s.take(mid)).push(s.skip(mid)), target)
    }
}

/// The buckets as sequences.
pub open spec fn contents(buckets: Seq<Vec<usize>>) -> Seq<Seq<usize>> {
    Seq::new(buckets.len(), |i: int| buckets[i]@)
}

proof fn largest_in_range(buckets: Seq<Seq<usize>>, k: int)
    requires
        1 <= k <= buckets.len(),
    ensures
        0 <= largest(buckets, k) < k,
        forall|m: int|
            #![trigger buckets[m]]
            0 <= m < k ==> buckets[m].len() <= buckets[largest(buckets, k)].len(),
    decreases k,
{
    if k > 1 {
        largest_in_range(buckets, k - 1);
    }
}

fn find_largest(buckets: &Vec<Vec<usize>>) -> (i: usize)
    requires
        buckets@.len() > 0,
    ensures
        i == largest(contents(buckets@), buckets@.len() as int),
        i < buckets@.len(),
{
    let mut best: usize = 0;
    let mut k: usize = 1;
    while k < buckets.len()
        invariant
            1 <= k <= buckets@.len(),
            best == largest(contents(buckets@), k as int),
            best < k,
        decreases buckets@.len() - k,
    {
        if buckets[k].len() >= buckets[best].len() {
            best = k;
        }
        k += 1;
    }
    best
}

/// All pixels of the first `k` buckets.
pub open spec fn pooled(buckets: Seq<Seq<usize>>, k: int) -> vstd::multiset::Multiset<usize>
    decreases k,
{
    if k <= 0 {
        vstd::multiset::Multiset::empty()
    } else {
        pooled(buckets, k - 1).add(buckets[k - 1].to_multiset())
    }
}

/// Number of pixels in the first `k` buckets.
pub open spec fn pooled_count(buckets: Seq<Seq<usize>>, k: int) -> nat
    decreases k,
{
    if k <= 0 {
        0
    } else {
        pooled_count(buckets, k - 1) + buckets[k - 1].len()
    }
}

/// No bucket is empty.
pub open spec fn none_empty(buckets: Seq<Seq<usize>>) -> bool {
    forall|i: int| #![trigger buckets[i]] 0 <= i < buckets.len() ==> buckets[i].len() > 0
}

proof fn pooled_update(buckets: Seq<Seq<usize>>, i: int, b: Seq<usize>, k: int)
    requires
        0 <= i < buckets.len(),
        0 <= k <= buckets.len(),
    ensures
        i >= k ==> pooled(buckets.update(i, b), k) == pooled(buckets, k) && pooled_count(
            buckets.update(i, b),
            k,
        ) == pooled_count(buckets, k),
        i < k ==> pooled(buckets.update(i, b), k).add(buckets[i].to_multiset()) == pooled(
            buckets,
            k,
        ).add(b.to_multiset()) && pooled_count(buckets.update(i, b), k) + buckets[i].len()
            == pooled_count(buckets, k) + b.len(),
    decreases k,
{
    if k > 0 {
        pooled_update(buckets, i, b, k - 1);
        let u = buckets.update(i, b);
        if i < k {
            assert(pooled(u, k).add(buckets[i].to_multiset()) =~= pooled(buckets, k).add(
                b.to_multiset(),
            )) by {
                if i < k - 1 {
                    let x = pooled(u, k - 1);
                    let y = pooled(buckets, k - 1);
                    let last = buckets[k - 1].to_multiset();
                    assert(x.add(buckets[i].to_multiset()) =~= y.add(b.to_multiset()));
                    assert forall|v: usize|
                        x.add(last).add(buckets[i].to_multiset()).count(v) == y.add(last).add(
                            b.to_multiset(),
                        ).count(v) by {
                        assert(x.add(buckets[i].to_multiset()).count(v) == y.add(
                            b.to_multiset(),
                        ).count(v));
                    }
                } else {
                    assert(u[k - 1] == b);
                }
            }
        }
    }
}

proof fn pooled_push(buckets: Seq<Seq<usize>>, b: Seq<usize>, k: int)
    requires
        0 <= k <= buckets.len(),
    ensures
        pooled(buckets.push(b), k) == pooled(buckets, k),
        pooled_count(buckets.push(b), k) == pooled_count(buckets, k),
    decreases k,
{
    if k > 0 {
        pooled_push(buckets, b, k - 1);
        assert(buckets.push(b)[k - 1] == buckets[k - 1]);
    }
}

/// Cutting one bucket in two, in whatever order, keeps all pixels.
proof fn cut_keeps_pixels(buckets: Seq<Seq<usize>>, i: int, s: Seq<usize>, mid: int)
    requires
        0 <= i < buckets.len(),
        s.to_multiset() == buckets[i].to_multiset(),
        s.len() == buckets[i].len(),
        0 <= mid <= s.len(),
    ensures
        ({
            let after = buckets.update(i, s.take(mid)).push(s.skip(mid));
            &&& pooled(after, after.len() as int) == pooled(buckets, buckets.len() as int)
            &&& pooled_count(after, after.len() as int) == pooled_count(
                buckets,
                buckets.len() as int,
            )
        }),
{
    let n = buckets.len() as int;
    let left = s.take(mid);
    let right = s.skip(mid);
    let u = buckets.update(i, left);
    let after = u.push(right);
    pooled_update(buckets, i, left, n);
    pooled_push(u, right, n);
    vstd::seq_lib::lemma_multiset_commutative(left, right);
    assert(left + right =~= s);
    let pu = pooled(u, n);
    let pb = pooled(buckets, n);
    let mi = buckets[i].to_multiset();
    assert(pu.add(mi) == pb.add(left.to_multiset()));
    assert(mi == left.to_multiset().add(right.to_multiset()));
    assert(pooled(after, n + 1) =~= pb) by {
        assert forall|v: usize| pu.add(right.to_multiset()).count(v) == pb.count(v) by {
            assert(pu.add(mi).count(v) == pb.add(left.to_multiset()).count(v));
            assert(mi.count(v) == left.to_multiset().add(right.to_multiset()).count(v));
        }
    }
}

proof fn few_pixels(buckets: Seq<Seq<usize>>, k: int)
    requires
        0 <= k <= buckets.len(),
        forall|i: int| #![trigger buckets[i]] 0 <= i < buckets.len() ==> buckets[i].len() <= 1,
    ensures
        pooled_count(buckets, k) <= k,
    decreases k,
{
    if k > 0 {
        few_pixels(buckets, k - 1);
        assert(buckets[k - 1].len() <= 1);
    }
}

/// Divides the pixels of an image into `k` buckets of similar colour; into one
/// for each pixel where there are fewer.
///
/// `width` measures how far it is from one coordinate to another.
pub fn median_cut<W: Fn(Scalar, Scalar) -> Scalar>(
    axes: &Axes,
    k: usize,
    width: &W,
) -> (r: Option<Vec<Vec<usize>>>)
    requires
        axes.wf(),
        is_width(*width),
    ensures
        r is None <==> axes.x@.len() == 0,
        r is Some ==> {
            let n = axes.x@.len() as int;
            let out = contents(r->Some_0@);
            let all = crate::background::every_pixel(n);
            let target = if k <= n {
                k as int
            } else {
                n
            };
            &&& out == cut_largest(*axes, *width, seq![all], target)
            &&& out.len() == if target >= 1 {
                target
            } else {
                1
            }
            &&& pooled(out, out.len() as int) == all.to_multiset()
            &&& none_empty(out)
        },
{
    let n = axes.x.len();
    if n == 0 {
        return None;
    }
    let target: usize = if k <= n {
        k
    } else {
        n
    };
    let all = crate::background::list_pixels(n);
    let ghost pixels = all@;
    let mut buckets: Vec<Vec<usize>> = Vec::new();
    buckets.push(all);
    let ghost goal = cut_largest(*axes, *width, seq![pixels], target as int);
    proof {
        assert(contents(buckets@) =~= seq![pixels]);
        let c = contents(buckets@);
        assert(pooled(c, 0) =~= vstd::multiset::Multiset::empty());
        assert(c[0] == pixels);
        assert(pooled(c, 1) =~= pixels.to_multiset());
        assert(pooled_count(c, 1) == n) by {
            assert(pooled_count(c, 0) == 0);
        }
    }
    loop
        invariant
            axes.wf(),
            is_width(*width),
            n == axes.x@.len(),
            n > 0,
            target <= n,
            1 <= buckets@.len() <= n,
            buckets@.len() <= target || buckets@.len() == 1,
            goal == cut_largest(*axes, *width, contents(buckets@), target as int),
            none_empty(contents(buckets@)),
            forall|i: int|
                #![trigger buckets@[i]]
                0 <= i < buckets@.len() ==> indices_within(buckets@[i]@, n as int),
            pooled(contents(buckets@), buckets@.len() as int) == pixels.to_multiset(),
            pooled_count(contents(buckets@), buckets@.len() as int) == n,
        ensures
            contents(buckets@) == goal,
            buckets@.len() >= target,
        decreases target + 1 - buckets@.len(),
    {
        if buckets.len() >= target {
            break ;
        }
        let i = find_largest(&buckets);
        let ghost before = contents(buckets@);
        proof {
            largest_in_range(before, before.len() as int);
            assert(before[i as int].len() > 0);
            if buckets@[i as int]@.len() < 2 {
                assert forall|m: int| #![trigger before[m]] 0 <= m < before.len() implies before[m].len()
                    <= 1 by {
                    assert(before[m].len() <= before[i as int].len());
                }
                few_pixels(before, before.len() as int);
            }
        }
        if buckets[i].len() < 2 {
            break ;
        }
        assert(indices_within(buckets@[i as int]@, n as int));
        let d = longest_axis(axes, &buckets[i], width);
        let mut low = sort_indices(axes.on(d), &buckets[i]);
        let ghost s = low@;
        let mid: usize = low.len() / 2;
        let high = low.split_off(mid);
        let ghost old_buckets = buckets@;
        buckets.set(i, low);
        buckets.push(high);
        proof {
            let after = before.update(i as int, s.take(mid as int)).push(s.skip(mid as int));
            assert(low@ =~= s.take(mid as int));
            assert(high@ =~= s.skip(mid as int));
            assert(contents(buckets@) =~= after);
            cut_keeps_pixels(before, i as int, s, mid as int);
            assert forall|q: int| #![trigger after[q]] 0 <= q < after.len() implies after[q].len()
                > 0 by {
                if q < before.len() && q != i {
                    assert(after[q] == before[q]);
                }
            }
            assert forall|q: int|
                #![trigger buckets@[q]]
                0 <= q < buckets@.len() implies indices_within(buckets@[q]@, n as int) by {
                if q == i {
                    assert forall|t: int| #![trigger low@[t]] 0 <= t < low@.len() implies low@[t]
                        < n by {
                        assert(low@[t] == s[t]);
                    }
                } else if q == old_buckets.len() {
                    assert forall|t: int| #![trigger high@[t]] 0 <= t < high@.len() implies high@[t]
                        < n by {
                        assert(high@[t] == s[mid + t]);
                    }
                } else {
                    assert(buckets@[q] == old_buckets[q]);
                }
            }
        }
    }
    Some(buckets)
}

/// The bucket of the dominant colour: the last with the most pixels.
pub fn dominant_bucket(buckets: &Vec<Vec<usize>>) -> (i: usize)
    requires
        buckets@.len() > 0,
    ensures
        i == largest(contents(buckets@), buckets@.len() as int),
        i < buckets@.len(),
{
    find_largest(buckets)
}

/// Deepest level at which a set of pixels is still divided.
pub const DEEPEST_CUT: usize = 10;

/// The sets that `indices` are divided into for at most `max_colors` colours:
/// sorted along the widest axis and cut in half, the lower half getting the
/// larger share of the colours.
pub open spec fn halved<W: Fn(Scalar, Scalar) -> Scalar>(
    axes: Axes,
    width: W,
    indices: Seq<usize>,
    max_colors: int,
    depth: int,
) -> Seq<Seq<usize>>
    decreases DEEPEST_CUT + 1 - depth,
{
    if indices.len() <= 1 || depth > DEEPEST_CUT || max_colors <= 1 {
        seq![indices]
    } else {
        let s = sorted_by(axes.axis(first_longest(axes, indices, width)), indices);
        let mid = s.len() as int / 2;
        let share = (max_colors + 1) / 2;
        halved(axes, width, s.take(mid), share, depth + 1) + halved(
            axes,
            width,
            s.skip(mid),
            max_colors - share,
            depth + 1,
        )
    }
}

fn first_longest_axis<W: Fn(Scalar, Scalar) -> Scalar>(
    axes: &Axes,
    indices: &[usize],
    width: &W,
) -> (d: usize)
    requires
        axes.wf(),
        indices@.len() > 0,
        indices_within(indices@, axes.x@.len() as int),
        is_width(*width),
    ensures
        d == first_longest(*axes, indices@, *width),
        d <= 2,
{
    let r0 = measure_range(axes.on(0), indices, width);
    let r1 = measure_range(axes.on(1), indices, width);
    let r2 = measure_range(axes.on(2), indices, width);
    if r1.at_most(&r0) && r2.at_most(&r0) {
        0
    } else if r2.at_most(&r1) {
        1
    } else {
        2
    }
}

proof fn pooled_concat(a: Seq<Seq<usize>>, b: Seq<Seq<usize>>, k: int)
    requires
        0 <= k <= b.len(),
    ensures
        pooled(a + b, a.len() + k) == pooled(a, a.len() as int).add(pooled(b, k)),
    decreases k,
{
    if k > 0 {
        pooled_concat(a, b, k - 1);
        assert((a + b)[a.len() + k - 1] == b[k - 1]);
        assert(pooled(a + b, a.len() + k) =~= pooled(a, a.len() as int).add(pooled(b, k)));
    } else {
        pooled_prefix(a, b, a.len() as int);
        assert(pooled(b, 0) =~= vstd::multiset::Multiset::empty());
        assert(pooled(a, a.len() as int).add(pooled(b, 0)) =~= pooled(a, a.len() as int));
    }
}

proof fn pooled_prefix(a: Seq<Seq<usize>>, b: Seq<Seq<usize>>, k: int)
    requires
        0 <= k <= a.len(),
    ensures
        pooled(a + b, k) == pooled(a, k),
    decreases k,
{
    if k > 0 {
        pooled_prefix(a, b, k - 1);
        assert((a + b)[k - 1] == a[k - 1]);
    }
}

/// Sorted indices are the same indices, and no value among them exceeds a later
/// one; equal values keep the order they had.
pub proof fn sorted_ascends(data: Seq<Scalar>, indices: Seq<usize>, a: int, b: int)
    requires
        all_numbers(data),
        indices_within(indices, data.len() as int),
        indices.len() <= usize::MAX,
        0 <= a < b < indices.len(),
    ensures
        sorted_by(data, indices).len() == indices.len(),
        sorted_by(data, indices).to_multiset() == indices.to_multiset(),
        data[sorted_by(data, indices)[a] as int].le(data[sorted_by(data, indices)[b] as int]),
        exists|i: int, j: int|
            #![trigger indices[i], indices[j]]
            0 <= i < indices.len() && 0 <= j < indices.len() && sorted_by(data, indices)[a]
                == indices[i] && sorted_by(data, indices)[b] == indices[j] && (data[
            indices[i] as int].key() == data[indices[j] as int].key() ==> i < j),
{
    let vals = picked(data, indices);
    let keys = ordinals(vals);
    crate::order::key_order_exists(keys);
    let p = key_order(keys);
    let s = sorted_by(data, indices);
    let i = p[a] as int;
    let j = p[b] as int;
    assert(indices[i] < data.len() && indices[j] < data.len());
    assert(!data[indices[i] as int].is_nan() && !data[indices[j] as int].is_nan());
    assert(crate::order::precedes(keys, i, j));
    assert(s[a] == indices[i] && s[b] == indices[j]);
    reordering_keeps(indices, p, s);
}

/// No bucket has more pixels than the largest, and every later one has fewer.
pub proof fn largest_has_most(buckets: Seq<Seq<usize>>, k: int, i: int)
    requires
        0 <= i < k <= buckets.len(),
    ensures
        0 <= largest(buckets, k) < k,
        buckets[i].len() <= buckets[largest(buckets, k)].len(),
        largest(buckets, k) < i ==> buckets[i].len() < buckets[largest(buckets, k)].len(),
    decreases k,
{
    if k > 1 {
        if i < k - 1 {
            largest_has_most(buckets, k - 1, i);
        } else {
            largest_has_most(buckets, k - 1, 0);
        }
    }
}

/// No bucket has more than about twice as many pixels as another.
pub open spec fn balanced(buckets: Seq<Seq<usize>>) -> bool {
    forall|i: int, j: int|
        #![trigger buckets[i], buckets[j]]
        0 <= i < buckets.len() && 0 <= j < buckets.len() ==> buckets[i].len() <= 2
            * buckets[j].len() + 1
}

/// Cutting the largest bucket in the middle keeps the buckets balanced.
pub proof fn cutting_keeps_balance<W: Fn(Scalar, Scalar) -> Scalar>(
    axes: Axes,
    width: W,
    buckets: Seq<Seq<usize>>,
    target: int,
)
    requires
        balanced(buckets),
    ensures
        balanced(cut_largest(axes, width, buckets, target)),
    decreases target - buckets.len(),
{
    let i = largest(buckets, buckets.len() as int);
    if !(buckets.len() >= target || !(0 <= i < buckets.len()) || buckets[i].len() < 2) {
        let s = sorted_by(axes.axis(longest(axes, buckets[i], width)), buckets[i]);
        let mid = s.len() as int / 2;
        let next = buckets.update(i, s.take(mid)).push(s.skip(mid));
        assert forall|a: int, b: int|
            #![trigger next[a], next[b]]
            0 <= a < next.len() && 0 <= b < next.len() implies next[a].len() <= 2 * next[b].len()
            + 1 by {
            if a < buckets.len() {
                largest_has_most(buckets, buckets.len() as int, a);
            }
            if b < buckets.len() {
                largest_has_most(buckets, buckets.len() as int, b);
            }
            let n = buckets.len() as int;
            if a < n && b < n && a != i && b != i {
                assert(buckets[a].len() <= 2 * buckets[b].len() + 1);
            } else if b < n && b != i {
                assert(buckets[i].len() <= 2 * buckets[b].len() + 1);
            }
        }
        cutting_keeps_balance(axes, width, next, target);
    }
}

/// Cutting into two takes the lower half of the pixels along an axis of the widest
/// range as the first bucket, and the upper half as the second.
pub proof fn cut_in_two<W: Fn(Scalar, Scalar) -> Scalar>(
    axes: Axes,
    width: W,
    all: Seq<usize>,
    i: int,
    j: int,
)
    requires
        axes.wf(),
        2 <= all.len() <= usize::MAX,
        indices_within(all, axes.x@.len() as int),
        !range_of(axes.x@, all, width).is_nan(),
        !range_of(axes.y@, all, width).is_nan(),
        !range_of(axes.z@, all, width).is_nan(),
        0 <= i < all.len() as int / 2,
        0 <= j < all.len() - all.len() as int / 2,
    ensures
        ({
            let out = cut_largest(axes, width, seq![all], 2);
            &&& out.len() == 2
            &&& out[0].len() == all.len() as int / 2
            &&& out[1].len() == all.len() - all.len() as int / 2
            &&& (out[0] + out[1]).to_multiset() == all.to_multiset()
            &&& exists|axis: Seq<Scalar>|
                {
                    &&& axis == axes.x@ || axis == axes.y@ || axis == axes.z@
                    &&& range_of(axes.x@, all, width).le(#[trigger] range_of(axis, all, width))
                    &&& range_of(axes.y@, all, width).le(range_of(axis, all, width))
                    &&& range_of(axes.z@, all, width).le(range_of(axis, all, width))
                    &&& axis[out[0][i] as int].le(axis[out[1][j] as int])
                }
        }),
{
    let start = seq![all];
    let d = longest(axes, all, width);
    longest_is_widest(axes, all, width);
    let axis = axes.axis(d);
    let s = sorted_by(axis, all);
    let mid = s.len() as int / 2;
    assert(largest(start, 1) == 0);
    let next = start.update(0, s.take(mid)).push(s.skip(mid));
    assert(next.len() == 2);
    assert(cut_largest(axes, width, next, 2) == next);
    assert(cut_largest(axes, width, start, 2) == next);
    sorted_ascends(axis, all, i, mid + j);
    assert(s.take(mid) + s.skip(mid) =~= s);
    assert(range_of(axis, all, width) == range_of(axis, all, width));
}

/// Halving for two colours takes the lower half of the pixels along an axis of the
/// widest range first, then the upper half.
pub proof fn halved_in_two<W: Fn(Scalar, Scalar) -> Scalar>(
    axes: Axes,
    width: W,
    all: Seq<usize>,
    depth: int,
    i: int,
    j: int,
)
    requires
        axes.wf(),
        2 <= all.len() <= usize::MAX,
        indices_within(all, axes.x@.len() as int),
        !range_of(axes.x@, all, width).is_nan(),
        !range_of(axes.y@, all, width).is_nan(),
        !range_of(axes.z@, all, width).is_nan(),
        depth <= 10,
        0 <= i < all.len() as int / 2,
        0 <= j < all.len() - all.len() as int / 2,
    ensures
        ({
            let out = halved(axes, width, all, 2, depth);
            &&& out.len() == 2
            &&& out[0].len() == all.len() as int / 2
            &&& out[1].len() == all.len() - all.len() as int / 2
            &&& (out[0] + out[1]).to_multiset() == all.to_multiset()
            &&& exists|axis: Seq<Scalar>|
                {
                    &&& axis == axes.x@ || axis == axes.y@ || axis == axes.z@
                    &&& range_of(axes.x@, all, width).le(#[trigger] range_of(axis, all, width))
                    &&& range_of(axes.y@, all, width).le(range_of(axis, all, width))
                    &&& range_of(axes.z@, all, width).le(range_of(axis, all, width))
                    &&& axis[out[0][i] as int].le(axis[out[1][j] as int])
                }
        }),
{
    let d = first_longest(axes, all, width);
    first_longest_is_widest(axes, all, width);
    let axis = axes.axis(d);
    let s = sorted_by(axis, all);
    let mid = s.len() as int / 2;
    let low = s.take(mid);
    let high = s.skip(mid);
    assert(halved(axes, width, low, 1, depth + 1) == seq![low]);
    assert(halved(axes, width, high, 1, depth + 1) == seq![high]);
    assert(halved(axes, width, all, 2, depth) =~= seq![low, high]);
    sorted_ascends(axis, all, i, mid + j);
    assert(low + high =~= s);
    assert(range_of(axis, all, width) == range_of(axis, all, width));
}

/// Pixels are not halved beyond the asked number of colours, nor below the deepest
/// cut, nor where there is one pixel at most.
pub proof fn halving_stops<W: Fn(Scalar, Scalar) -> Scalar>(
    axes: Axes,
    width: W,
    all: Seq<usize>,
    max_colors: int,
    depth: int,
)
    requires
        all.len() <= 1 || depth > 10 || max_colors <= 1,
    ensures
        halved(axes, width, all, max_colors, depth) == seq![all],
{
}

/// The number of colours is shared between the halves, the odd one to the lower.
pub proof fn halves_share_colors<W: Fn(Scalar, Scalar) -> Scalar>(
    axes: Axes,
    width: W,
    all: Seq<usize>,
    max_colors: int,
    depth: int,
) -> (halves: (Seq<usize>, Seq<usize>))
    requires
        all.len() >= 2,
        depth <= 10,
        max_colors >= 2,
    ensures
        halves.0.len() == all.len() as int / 2,
        halves.1.len() == all.len() - all.len() as int / 2,
        halved(axes, width, all, max_colors, depth) == halved(
            axes,
            width,
            halves.0,
            max_colors - max_colors / 2,
            depth + 1,
        ) + halved(axes, width, halves.1, max_colors / 2, depth + 1),
{
    let s = sorted_by(axes.axis(first_longest(axes, all, width)), all);
    let mid = s.len() as int / 2;
    (s.take(mid), s.skip(mid))
}

/// Divides pixels into sets of similar colour, for at most `max_colors` colours
/// (at least one). No pixel is lost or added.
pub fn median_cut_recursive<W: Fn(Scalar, Scalar) -> Scalar>(
    axes: &Axes,
    indices: Vec<usize>,
    max_colors: usize,
    depth: usize,
    width: &W,
) -> (out: Vec<Vec<usize>>)
    requires
        axes.wf(),
        indices_within(indices@, axes.x@.len() as int),
        is_width(*width),
    ensures
        contents(out@) == halved(*axes, *width, indices@, max_colors as int, depth as int),
        1 <= out@.len(),
        out@.len() <= 1 || out@.len() <= max_colors,
        pooled(contents(out@), out@.len() as int) == indices@.to_multiset(),
    decreases DEEPEST_CUT + 1 - depth,
{
    if indices.len() <= 1 || depth > DEEPEST_CUT || max_colors <= 1 {
        let ghost all = indices@;
        let mut out: Vec<Vec<usize>> = Vec::new();
        out.push(indices);
        proof {
            let c = contents(out@);
            assert(c =~= seq![all]);
            assert(pooled(c, 0) =~= vstd::multiset::Multiset::empty());
            assert(c[0] == all);
            assert(pooled(c, 1) =~= all.to_multiset());
        }
        return out;
    }
    let d = first_longest_axis(axes, &indices, width);
    let mut low = sort_indices(axes.on(d), &indices);
    let ghost s = low@;
    let mid: usize = low.len() / 2;
    let high = low.split_off(mid);
    let share: usize = max_colors - max_colors / 2;
    proof {
        assert(low@ =~= s.take(mid as int));
        assert(high@ =~= s.skip(mid as int));
        assert forall|t: int| #![trigger low@[t]] 0 <= t < low@.len() implies low@[t]
            < axes.x@.len() by {
            assert(low@[t] == s[t]);
        }
        assert forall|t: int| #![trigger high@[t]] 0 <= t < high@.len() implies high@[t]
            < axes.x@.len() by {
            assert(high@[t] == s[mid + t]);
        }
        vstd::seq_lib::lemma_multiset_commutative(s.take(mid as int), s.skip(mid as int));
        assert(s.take(mid as int) + s.skip(mid as int) =~= s);
    }
    let mut out = median_cut_recursive(axes, low, share, depth + 1, width);
    let mut more = median_cut_recursive(axes, high, max_colors - share, depth + 1, width);
    let ghost a = out@;
    let ghost b = more@;
    out.append(&mut more);
    proof {
        assert(contents(out@) =~= contents(a) + contents(b));
        pooled_concat(contents(a), contents(b), b.len() as int);
    }
    out
}

} // verus!
