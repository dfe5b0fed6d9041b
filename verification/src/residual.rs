//! Residuals: how far a channel is from its surroundings, or from its centre.

use vstd::prelude::*;
use crate::fusion::capped;
use crate::quantile::{all_numbers, ascending, sort_positions};
use crate::scalar::Scalar;

verus! {

/// The difference of two levels, without its sign.
pub open spec fn level_gap(a: u8, b: u8) -> u8 {
    if a >= b {
        (a - b) as u8
    } else {
        (b - a) as u8
    }
}

/// The differences of two channels, pixel by pixel.
pub open spec fn gaps(a: Seq<u8>, b: Seq<u8>) -> Seq<u8> {
    Seq::new(a.len(), |i: int| level_gap(a[i], b[i]))
}

/// How far a channel is from its blurred form.
pub fn level_residual(channel: &[u8], blurred: &[u8]) -> (out: Vec<u8>)
    requires
        channel@.len() == blurred@.len(),
    ensures
        out@ == gaps(channel@, blurred@),
{
    let mut out: Vec<u8> = Vec::new();
    let mut i: usize = 0;
    while i < channel.len()
        invariant
            i <= channel@.len(),
            channel@.len() == blurred@.len(),
            out@.len() == i,
            forall|k: int| #![trigger out@[k]] 0 <= k < i ==> out@[k] == gaps(channel@, blurred@)[k],
        decreases channel@.len() - i,
    {
        let a = channel[i];
        let b = blurred[i];
        if a >= b {
            out.push(a - b);
        } else {
            out.push(b - a);
        }
        i += 1;
    }
    assert(out@ =~= gaps(channel@, blurred@));
    out
}

/// A channel that blurring leaves alone has no residual, and which of the two is
/// blurred makes no difference.
pub proof fn residual_is_symmetric(a: Seq<u8>, b: Seq<u8>)
    requires
        a.len() == b.len(),
    ensures
        gaps(a, b) == gaps(b, a),
        forall|i: int| 0 <= i < a.len() ==> (#[trigger] gaps(a, b)[i] == 0 <==> a[i] == b[i]),
{
    assert(gaps(a, b) =~= gaps(b, a));
}

/// The value lies between two bounds.
pub open spec fn between(lo: Scalar, hi: Scalar, v: Scalar) -> bool {
    lo.le(v) && v.le(hi)
}

/// The first `k` values that lie between two bounds, in order.
pub open spec fn kept_between(data: Seq<Scalar>, lo: Scalar, hi: Scalar, k: int) -> Seq<Scalar>
    decreases k,
{
    if k <= 0 {
        seq![]
    } else if between(lo, hi, data[k - 1]) {
        kept_between(data, lo, hi, k - 1).push(data[k - 1])
    } else {
        kept_between(data, lo, hi, k - 1)
    }
}

fn keep_between(data: &[Scalar], lo: Scalar, hi: Scalar) -> (out: Vec<Scalar>)
    ensures
        out@ == kept_between(data@, lo, hi, data@.len() as int),
{
    let mut out: Vec<Scalar> = Vec::new();
    let mut i: usize = 0;
    while i < data.len()
        invariant
            i <= data@.len(),
            out@ == kept_between(data@, lo, hi, i as int),
        decreases data@.len() - i,
    {
        if lo.at_most(&data[i]) && data[i].at_most(&hi) {
            out.push(data[i]);
        }
        i += 1;
    }
    out
}

/// Where a percentile lies between two ranks, and how far above the lower one.
#[derive(Clone, Copy, Debug, PartialEq, Eq, Structural)]
pub struct RankPair {
    pub lo: usize,
    pub hi: usize,
    pub fraction: Scalar,
}

/// `v` is the percentile between two ranks of the sorted data: the value itself
/// where the ranks are the same, else what `mix` makes of the two values.
pub open spec fn percentile_of<M: Fn(RankPair, Scalar, Scalar) -> Scalar>(
    mix: M,
    data: Seq<Scalar>,
    p: Seq<usize>,
    r: RankPair,
    v: Scalar,
) -> bool {
    let n = data.len() as int;
    let a = data[p[capped(r.lo as int, n)] as int];
    let b = data[p[capped(r.hi as int, n)] as int];
    if capped(r.lo as int, n) == capped(r.hi as int, n) {
        v == a
    } else {
        call_ensures(mix, (r, a, b), v)
    }
}

fn pick_percentile<M: Fn(RankPair, Scalar, Scalar) -> Scalar>(
    data: &[Scalar],
    p: &Vec<usize>,
    r: RankPair,
    mix: &M,
) -> (v: Scalar)
    requires
        data@.len() > 0,
        ascending(data@, p@),
        forall|r: RankPair, a: Scalar, b: Scalar| #[trigger] call_requires(*mix, (r, a, b)),
    ensures
        percentile_of(*mix, data@, p@, r, v),
{
    let n = data.len();
    let lo: usize = if r.lo < n {
        r.lo
    } else {
        n - 1
    };
    let hi: usize = if r.hi < n {
        r.hi
    } else {
        n - 1
    };
    let a = data[p[lo]];
    if lo == hi {
        return a;
    }
    let b = data[p[hi]];
    assert(call_requires(*mix, (r, a, b)));
    mix(r, a, b)
}

/// The trimmed part of the data and its upper median.
pub open spec fn trimmed<M: Fn(RankPair, Scalar, Scalar) -> Scalar>(
    mix: M,
    data: Seq<Scalar>,
    low: RankPair,
    high: RankPair,
    kept: Seq<Scalar>,
    median: Scalar,
) -> bool {
    exists|p: Seq<usize>, a: Scalar, b: Scalar|
        {
            &&& #[trigger] ascending(data, p)
            &&& #[trigger] percentile_of(mix, data, p, low, a)
            &&& #[trigger] percentile_of(mix, data, p, high, b)
            &&& kept == kept_between(data, a, b, data.len() as int)
            &&& median == data[p[data.len() as int / 2] as int]
        }
}

/// `c` is the robust centre of the data: what `blend` makes of the mean of the
/// trimmed part and the median, the median standing in for the mean of nothing;
/// zero where there is no data.
pub open spec fn robust_center_of<
    M: Fn(RankPair, Scalar, Scalar) -> Scalar,
    A: Fn(&Vec<Scalar>) -> Scalar,
    B: Fn(Scalar, Scalar) -> Scalar,
>(mix: M, mean: A, blend: B, data: Seq<Scalar>, low: RankPair, high: RankPair, c: Scalar) -> bool {
    if data.len() == 0 {
        c.bits == 0
    } else {
        exists|kept: Vec<Scalar>, median: Scalar, m: Scalar|
            {
                &&& #[trigger] trimmed(mix, data, low, high, kept@, median)
                &&& if kept@.len() > 0 {
                    call_ensures(mean, (&kept,), m)
                } else {
                    m == median
                }
                &&& #[trigger] call_ensures(blend, (m, median), c)
            }
    }
}

/// The residual is how far the two levels lie apart.
pub proof fn residual_is_distance(a: Seq<u8>, b: Seq<u8>, i: int)
    requires
        a.len() == b.len(),
        0 <= i < a.len(),
    ensures
        gaps(a, b).len() == a.len(),
        a[i] + gaps(a, b)[i] == b[i] || b[i] + gaps(a, b)[i] == a[i],
{
}

/// Exactly the values between the two bounds are kept.
pub proof fn trimming_keeps_the_middle(data: Seq<Scalar>, lo: Scalar, hi: Scalar, k: int, i: int)
    requires
        0 <= i < k <= data.len(),
    ensures
        lo.le(data[i]) && data[i].le(hi) ==> kept_between(data, lo, hi, k).contains(data[i]),
        forall|m: int|
            #![trigger kept_between(data, lo, hi, k)[m]]
            0 <= m < kept_between(data, lo, hi, k).len() ==> lo.le(
                kept_between(data, lo, hi, k)[m],
            ) && kept_between(data, lo, hi, k)[m].le(hi),
    decreases k,
{
    let now = kept_between(data, lo, hi, k);
    let before = kept_between(data, lo, hi, k - 1);
    if k > 1 {
        trimming_keeps_the_middle(
            data,
            lo,
            hi,
            k - 1,
            if i < k - 1 {
                i
            } else {
                0
            },
        );
    }
    assert forall|m: int| #![trigger now[m]] 0 <= m < now.len() implies lo.le(now[m])
        && now[m].le(hi) by {
        if m < before.len() {
            assert(now[m] == before[m]);
        }
    }
    if lo.le(data[i]) && data[i].le(hi) {
        if i < k - 1 {
            let m = choose|m: int| 0 <= m < before.len() && before[m] == data[i];
            assert(now[m] == data[i]);
        } else {
            assert(now[before.len() as int] == data[i]);
        }
    }
}

/// No more than half of the values lie below the median.
pub proof fn median_lies_in_the_middle<M: Fn(RankPair, Scalar, Scalar) -> Scalar>(
    mix: M,
    data: Seq<Scalar>,
    low: RankPair,
    high: RankPair,
    kept: Seq<Scalar>,
    median: Scalar,
)
    requires
        all_numbers(data),
        data.len() > 0,
        trimmed(mix, data, low, high, kept, median),
    ensures
        2 * crate::quantile::below(data, median).len() <= data.len(),
        2 * crate::quantile::above(data, median).len() <= data.len(),
{
    let n = data.len() as int;
    let (p, a, b) = choose|p: Seq<usize>, a: Scalar, b: Scalar|
        {
            &&& #[trigger] ascending(data, p)
            &&& #[trigger] percentile_of(mix, data, p, low, a)
            &&& #[trigger] percentile_of(mix, data, p, high, b)
            &&& kept == kept_between(data, a, b, n)
            &&& median == data[p[n / 2] as int]
        };
    assert(crate::quantile::ranked(data, n / 2, median));
    crate::quantile::few_below_rank(data, n / 2, median);
    crate::quantile::few_above_rank(data, n / 2, median);
}

/// Estimates the centre of values without being led astray by outliers: values
/// outside the percentiles between the ranks `low` and `high` are left out of the
/// mean, and `blend` mixes the mean with the median.
pub fn robust_center<
    M: Fn(RankPair, Scalar, Scalar) -> Scalar,
    A: Fn(&Vec<Scalar>) -> Scalar,
    B: Fn(Scalar, Scalar) -> Scalar,
>(data: &[Scalar], low: RankPair, high: RankPair, mix: &M, mean: &A, blend: &B) -> (c: Scalar)
    requires
        all_numbers(data@),
        forall|r: RankPair, a: Scalar, b: Scalar| #[trigger] call_requires(*mix, (r, a, b)),
        forall|v: &Vec<Scalar>| v@.len() > 0 ==> #[trigger] call_requires(*mean, (v,)),
        forall|a: Scalar, b: Scalar| #[trigger] call_requires(*blend, (a, b)),
    ensures
        robust_center_of(*mix, *mean, *blend, data@, low, high, c),
{
    let n = data.len();
    if n == 0 {
        return Scalar::zero();
    }
    let p = sort_positions(data);
    let a = pick_percentile(data, &p, low, mix);
    let b = pick_percentile(data, &p, high, mix);
    let kept = keep_between(data, a, b);
    let median = data[p[n / 2]];
    assert(trimmed(*mix, data@, low, high, kept@, median));
    let m = if kept.len() > 0 {
        assert(call_requires(*mean, (&kept,)));
        mean(&kept)
    } else {
        median
    };
    assert(call_requires(*blend, (m, median)));
    let c = blend(m, median);
    assert(call_ensures(*blend, (m, median), c));
    c
}

/// A percentile on a rank is the value of that rank, and one between two ranks is
/// mixed of their values.
pub proof fn percentiles_follow_ranks<M: Fn(RankPair, Scalar, Scalar) -> Scalar>(
    mix: M,
    data: Seq<Scalar>,
    p: Seq<usize>,
    r: RankPair,
    v: Scalar,
)
    requires
        percentile_of(mix, data, p, r, v),
        r.lo < data.len(),
        r.hi < data.len(),
    ensures
        r.lo == r.hi ==> v == data[p[r.lo as int] as int],
        r.lo != r.hi ==> call_ensures(
            mix,
            (r, data[p[r.lo as int] as int], data[p[r.hi as int] as int]),
            v,
        ),
{
}

/// What is kept of the data are exactly the values between its two percentiles.
pub proof fn kept_values_lie_between_percentiles<M: Fn(RankPair, Scalar, Scalar) -> Scalar>(
    mix: M,
    data: Seq<Scalar>,
    low: RankPair,
    high: RankPair,
    kept: Seq<Scalar>,
    median: Scalar,
    i: int,
    m: int,
) -> (r: (Seq<usize>, Scalar, Scalar))
    requires
        trimmed(mix, data, low, high, kept, median),
        0 <= i < data.len(),
        0 <= m,
    ensures
        ascending(data, r.0),
        percentile_of(mix, data, r.0, low, r.1),
        percentile_of(mix, data, r.0, high, r.2),
        r.1.le(data[i]) && data[i].le(r.2) ==> kept.contains(data[i]),
        m < kept.len() ==> r.1.le(kept[m]) && kept[m].le(r.2),
{
    let n = data.len() as int;
    let (p, a, b) = choose|p: Seq<usize>, a: Scalar, b: Scalar|
        {
            &&& #[trigger] ascending(data, p)
            &&& #[trigger] percentile_of(mix, data, p, low, a)
            &&& #[trigger] percentile_of(mix, data, p, high, b)
            &&& kept == kept_between(data, a, b, n)
            &&& median == data[p[n / 2] as int]
        };
    trimming_keeps_the_middle(data, a, b, n, i);
    (p, a, b)
}

/// The robust centre of no data is zero; else it is blended of the mean of what is
/// kept and the median, which stands in where nothing is kept.
pub proof fn centers_blend_mean_and_median<
    M: Fn(RankPair, Scalar, Scalar) -> Scalar,
    A: Fn(&Vec<Scalar>) -> Scalar,
    B: Fn(Scalar, Scalar) -> Scalar,
>(mix: M, mean: A, blend: B, data: Seq<Scalar>, low: RankPair, high: RankPair, c: Scalar) -> (r: (
    Vec<Scalar>,
    Scalar,
    Scalar,
))
    requires
        robust_center_of(mix, mean, blend, data, low, high, c),
    ensures
        data.len() == 0 ==> c.bits == 0,
        data.len() > 0 ==> trimmed(mix, data, low, high, r.0@, r.1) && call_ensures(
            blend,
            (r.2, r.1),
            c,
        ),
        data.len() > 0 && r.0@.len() > 0 ==> call_ensures(mean, (&r.0,), r.2),
        data.len() > 0 && r.0@.len() == 0 ==> r.2 == r.1,
{
    choose|kept: Vec<Scalar>, median: Scalar, m: Scalar|
        {
            &&& #[trigger] trimmed(mix, data, low, high, kept@, median)
            &&& if kept@.len() > 0 {
                call_ensures(mean, (&kept,), m)
            } else {
                m == median
            }
            &&& #[trigger] call_ensures(blend, (m, median), c)
        }
}

} // verus!
