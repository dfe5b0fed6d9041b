//! Normalising, filtering and compositing of maps. The arithmetic of single
//! values is the caller's; which values bound the range, which are kept and
//! which are dropped is decided here.

use vstd::prelude::*;
use crate::params::{filter_verdict, FilterParams};
use crate::quantile::{
    all_numbers, ascending, below, few_below_rank, ranked, sort_positions, value_at_rank,
};
use crate::scalar::{clamp_unit, unit, Scalar, INFINITY_BITS, MAX_BITS, NEG_INFINITY_BITS};

verus! {

/// `out` holds an outcome of `f` for every value, given the range `lo` to `hi`.
pub open spec fn stretched<S: Fn(Scalar, Scalar, Scalar) -> Scalar>(
    f: S,
    lo: Scalar,
    hi: Scalar,
    data: Seq<Scalar>,
    out: Seq<Scalar>,
) -> bool {
    &&& out.len() == data.len()
    &&& forall|i: int|
        #![trigger out[i]]
        0 <= i < out.len() ==> call_ensures(f, (lo, hi, data[i]), out[i])
}

/// `f` takes any values.
pub open spec fn stretches<S: Fn(Scalar, Scalar, Scalar) -> Scalar>(f: S) -> bool {
    forall|lo: Scalar, hi: Scalar, v: Scalar| #[trigger] call_requires(f, (lo, hi, v))
}

fn stretch_all<S: Fn(Scalar, Scalar, Scalar) -> Scalar>(
    f: &S,
    lo: Scalar,
    hi: Scalar,
    data: &[Scalar],
) -> (out: Vec<Scalar>)
    requires
        stretches(*f),
    ensures
        stretched(*f, lo, hi, data@, out@),
{
    let mut out: Vec<Scalar> = Vec::new();
    let mut i: usize = 0;
    while i < data.len()
        invariant
            i <= data@.len(),
            stretches(*f),
            out@.len() == i,
            forall|k: int|
                #![trigger out@[k]]
                0 <= k < i ==> call_ensures(*f, (lo, hi, data@[k]), out@[k]),
        decreases data@.len() - i,
    {
        assert(call_requires(*f, (lo, hi, data@[i as int])));
        out.push(f(lo, hi, data[i]));
        i += 1;
    }
    out
}

/// Position `pos`, or the last one where there are not that many.
pub open spec fn capped(pos: int, n: int) -> int {
    if pos < n {
        pos
    } else {
        n - 1
    }
}

/// `lo` and `hi` are the values at two ranks of the data.
pub open spec fn rank_bounds(
    data: Seq<Scalar>,
    lo_pos: int,
    hi_pos: int,
    lo: Scalar,
    hi: Scalar,
) -> bool {
    let n = data.len() as int;
    ranked(data, capped(lo_pos, n), lo) && ranked(data, capped(hi_pos, n), hi)
}

/// Stretches the values between two ranks: `stretch` maps a value, given the
/// values at the two ranks.
pub fn percentile_normalize<S: Fn(Scalar, Scalar, Scalar) -> Scalar>(
    data: &[Scalar],
    lo_pos: usize,
    hi_pos: usize,
    stretch: &S,
) -> (out: Vec<Scalar>)
    requires
        all_numbers(data@),
        stretches(*stretch),
    ensures
        data@.len() == 0 ==> out@.len() == 0,
        data@.len() > 0 ==> exists|lo: Scalar, hi: Scalar| #[trigger]
            rank_bounds(data@, lo_pos as int, hi_pos as int, lo, hi) && stretched(
                *stretch,
                lo,
                hi,
                data@,
                out@,
            ),
{
    if data.len() == 0 {
        return Vec::new();
    }
    let lo = value_at_rank(data, lo_pos);
    let hi = value_at_rank(data, hi_pos);
    assert(rank_bounds(data@, lo_pos as int, hi_pos as int, lo, hi));
    stretch_all(stretch, lo, hi, data)
}

/// Bit pattern of -1e-9, down to which a unit value may fall short.
pub const UNIT_LOW_BITS: u64 = 0xBE11_2E0B_E826_D695;

/// Bit pattern of 1 + 1e-9, up to which a unit value may go.
pub const UNIT_HIGH_BITS: u64 = 0x3FF0_0000_0044_B830;

/// The least and the greatest value lie in the unit range, up to rounding.
pub open spec fn already_unit(least: Scalar, greatest: Scalar) -> bool {
    (Scalar { bits: UNIT_LOW_BITS }).le(least) && greatest.le(Scalar { bits: UNIT_HIGH_BITS })
}

/// The values at the ends and at two ranks of the data.
pub open spec fn four_ranks(
    data: Seq<Scalar>,
    lo_pos: int,
    hi_pos: int,
    r: (Scalar, Scalar, Scalar, Scalar),
) -> bool {
    let n = data.len() as int;
    exists|p: Seq<usize>|
        {
            &&& #[trigger] ascending(data, p)
            &&& r.0 == data[p[0] as int]
            &&& r.1 == data[p[capped(lo_pos, n)] as int]
            &&& r.2 == data[p[capped(hi_pos, n)] as int]
            &&& r.3 == data[p[n - 1] as int]
        }
}

/// Every value held to the unit range.
pub open spec fn units(data: Seq<Scalar>) -> Seq<Scalar> {
    Seq::new(data.len(), |i: int| unit(data[i]))
}

/// Holds every value to the unit range.
pub fn clamp_all(data: &[Scalar]) -> (out: Vec<Scalar>)
    ensures
        out@ == units(data@),
{
    let mut out: Vec<Scalar> = Vec::new();
    let mut i: usize = 0;
    while i < data.len()
        invariant
            i <= data@.len(),
            out@.len() == i,
            forall|k: int| #![trigger out@[k]] 0 <= k < i ==> out@[k] == unit(data@[k]),
        decreases data@.len() - i,
    {
        out.push(clamp_unit(data[i]));
        i += 1;
    }
    assert(out@ =~= units(data@));
    out
}

/// `out` is the normalised map: unit values without a spread are kept.
pub open spec fn unit_normalized<
    F: Fn(Scalar, Scalar) -> bool,
    S: Fn(Scalar, Scalar, Scalar) -> Scalar,
>(
    flat: F,
    stretch: S,
    data: Seq<Scalar>,
    r: (Scalar, Scalar, Scalar, Scalar),
    out: Seq<Scalar>,
) -> bool {
    exists|no_spread: bool|
        {
            &&& #[trigger] call_ensures(flat, (r.1, r.2), no_spread)
            &&& if no_spread && already_unit(r.0, r.3) {
                out == units(data)
            } else {
                stretched(stretch, r.1, r.2, data, out)
            }
        }
}

/// Normalises a map of probabilities between two ranks. Where `flat` finds no
/// spread between them the values are kept, if they are probabilities already.
pub fn percentile_normalize_unit_feature<
    F: Fn(Scalar, Scalar) -> bool,
    S: Fn(Scalar, Scalar, Scalar) -> Scalar,
>(data: &[Scalar], lo_pos: usize, hi_pos: usize, flat: &F, stretch: &S) -> (out: Vec<Scalar>)
    requires
        all_numbers(data@),
        stretches(*stretch),
        forall|lo: Scalar, hi: Scalar| #[trigger] call_requires(*flat, (lo, hi)),
    ensures
        data@.len() == 0 ==> out@.len() == 0,
        data@.len() > 0 ==> exists|r: (Scalar, Scalar, Scalar, Scalar)| #[trigger]
            four_ranks(data@, lo_pos as int, hi_pos as int, r) && unit_normalized(
                *flat,
                *stretch,
                data@,
                r,
                out@,
            ),
{
    let n = data.len();
    if n == 0 {
        return Vec::new();
    }
    let p = sort_positions(data);
    let lo_at: usize = if lo_pos < n {
        lo_pos
    } else {
        n - 1
    };
    let hi_at: usize = if hi_pos < n {
        hi_pos
    } else {
        n - 1
    };
    let least = data[p[0]];
    let lo = data[p[lo_at]];
    let hi = data[p[hi_at]];
    let greatest = data[p[n - 1]];
    let ghost r = (least, lo, hi, greatest);
    assert(four_ranks(data@, lo_pos as int, hi_pos as int, r));
    let no_spread = flat(lo, hi);
    let low = Scalar::new(UNIT_LOW_BITS);
    let high = Scalar::new(UNIT_HIGH_BITS);
    if no_spread && low.at_most(&least) && greatest.at_most(&high) {
        let out = clamp_all(data);
        assert(unit_normalized(*flat, *stretch, data@, r, out@));
        out
    } else {
        let out = stretch_all(stretch, lo, hi, data);
        assert(unit_normalized(*flat, *stretch, data@, r, out@));
        out
    }
}

/// Keeping a map of probabilities: one that lies in the unit range stays as it
/// is.
pub proof fn unit_maps_are_kept(data: Seq<Scalar>)
    requires
        forall|i: int|
            #![trigger data[i]]
            0 <= i < data.len() ==> (Scalar { bits: 0 }).le(data[i]) && data[i].le(
                Scalar { bits: crate::scalar::ONE_BITS },
            ),
    ensures
        units(data) == data,
{
    assert forall|i: int| 0 <= i < data.len() implies #[trigger] units(data)[i] == data[i] by {
        crate::scalar::unit_bounds(data[i]);
    }
    assert(units(data) =~= data);
}

/// The least of the first `k` values, and the largest finite number.
pub open spec fn least_of(data: Seq<Scalar>, k: int) -> Scalar
    decreases k,
{
    if k <= 0 {
        Scalar { bits: MAX_BITS }
    } else if data[k - 1].lt(least_of(data, k - 1)) {
        data[k - 1]
    } else {
        least_of(data, k - 1)
    }
}

/// The greatest of the first `k` values, negative infinity where there is none.
pub open spec fn greatest_of(data: Seq<Scalar>, k: int) -> Scalar
    decreases k,
{
    if k <= 0 {
        Scalar { bits: NEG_INFINITY_BITS }
    } else if greatest_of(data, k - 1).lt(data[k - 1]) {
        data[k - 1]
    } else {
        greatest_of(data, k - 1)
    }
}

/// The least and the greatest value.
pub fn extent(data: &[Scalar]) -> (r: (Scalar, Scalar))
    ensures
        r.0 == least_of(data@, data@.len() as int),
        r.1 == greatest_of(data@, data@.len() as int),
{
    let mut lo = Scalar::new(MAX_BITS);
    let mut hi = Scalar::new(NEG_INFINITY_BITS);
    let mut i: usize = 0;
    while i < data.len()
        invariant
            i <= data@.len(),
            lo == least_of(data@, i as int),
            hi == greatest_of(data@, i as int),
        decreases data@.len() - i,
    {
        if data[i].less(&lo) {
            lo = data[i];
        }
        if hi.less(&data[i]) {
            hi = data[i];
        }
        i += 1;
    }
    (lo, hi)
}

/// Every finite number among the values lies between the least and the greatest.
pub proof fn extent_bounds(data: Seq<Scalar>, k: int, i: int)
    requires
        0 <= i < k <= data.len(),
        !data[i].is_nan(),
        data[i].magnitude() < INFINITY_BITS,
    ensures
        least_of(data, k).le(data[i]),
        data[i].le(greatest_of(data, k)),
    decreases k,
{
    bounds_are_numbers(data, k);
    bounds_are_numbers(data, k - 1);
    if i < k - 1 {
        extent_bounds(data, k - 1, i);
    }
}

proof fn bounds_are_numbers(data: Seq<Scalar>, k: int)
    requires
        0 <= k <= data.len(),
    ensures
        !least_of(data, k).is_nan(),
        !greatest_of(data, k).is_nan(),
        least_of(data, k).key() <= MAX_BITS,
        greatest_of(data, k).key() >= -(INFINITY_BITS as int),
    decreases k,
{
    if k > 0 {
        bounds_are_numbers(data, k - 1);
    }
}

/// The values whose brightness reaches the threshold; the others become zero.
pub open spec fn kept(data: Seq<Scalar>, brightness: Seq<Scalar>, t: Scalar) -> Seq<Scalar> {
    Seq::new(
        data.len(),
        |i: int|
            if t.le(brightness[i]) {
                data[i]
            } else {
                Scalar { bits: 0 }
            },
    )
}

fn keep_bright(data: &[Scalar], brightness: &[Scalar], t: Scalar) -> (out: Vec<Scalar>)
    requires
        data@.len() == brightness@.len(),
    ensures
        out@ == kept(data@, brightness@, t),
{
    let mut out: Vec<Scalar> = Vec::new();
    let mut i: usize = 0;
    while i < data.len()
        invariant
            i <= data@.len(),
            data@.len() == brightness@.len(),
            out@.len() == i,
            forall|k: int|
                #![trigger out@[k]]
                0 <= k < i ==> out@[k] == kept(data@, brightness@, t)[k],
        decreases data@.len() - i,
    {
        if t.at_most(&brightness[i]) {
            out.push(data[i]);
        } else {
            out.push(Scalar::zero());
        }
        i += 1;
    }
    assert(out@ =~= kept(data@, brightness@, t));
    out
}

/// The positive values, in order.
pub open spec fn positive_values(data: Seq<Scalar>, k: int) -> Seq<Scalar>
    decreases k,
{
    if k <= 0 {
        seq![]
    } else if (Scalar { bits: 0 }).lt(data[k - 1]) {
        positive_values(data, k - 1).push(data[k - 1])
    } else {
        positive_values(data, k - 1)
    }
}

fn collect_positive(data: &[Scalar]) -> (out: Vec<Scalar>)
    ensures
        out@ == positive_values(data@, data@.len() as int),
{
    let zero = Scalar::zero();
    let mut out: Vec<Scalar> = Vec::new();
    let mut i: usize = 0;
    while i < data.len()
        invariant
            i <= data@.len(),
            zero == (Scalar { bits: 0 }),
            out@ == positive_values(data@, i as int),
        decreases data@.len() - i,
    {
        if zero.less(&data[i]) {
            out.push(data[i]);
        }
        i += 1;
    }
    out
}

/// The value is finite.
pub open spec fn finite(v: Scalar) -> bool {
    v.magnitude() < INFINITY_BITS
}

fn is_finite(v: &Scalar) -> (r: bool)
    ensures
        r == finite(*v),
{
    if v.bits < crate::scalar::SIGN_BIT {
        v.bits < INFINITY_BITS
    } else {
        v.bits - crate::scalar::SIGN_BIT < INFINITY_BITS
    }
}

/// A positive value becomes one, any other zero.
pub open spec fn indicator(v: Scalar) -> Scalar {
    if (Scalar { bits: 0 }).lt(v) {
        Scalar { bits: crate::scalar::ONE_BITS }
    } else {
        Scalar { bits: 0 }
    }
}

/// `out` is the filtered map stretched over what was kept: dropped values stay
/// zero.
pub open spec fn post_normalized<
    F: Fn(Scalar, Scalar) -> bool,
    S: Fn(Scalar, Scalar, Scalar) -> Scalar,
>(flat: F, lift: S, data: Seq<Scalar>, out: Seq<Scalar>) -> bool {
    let pos = positive_values(data, data.len() as int);
    let lo = least_of(pos, pos.len() as int);
    let hi = greatest_of(pos, pos.len() as int);
    &&& out.len() == data.len()
    &&& if !finite(lo) || !finite(hi) {
        out == data
    } else {
        exists|no_spread: bool| #[trigger]
            call_ensures(flat, (lo, hi), no_spread) && lifted(no_spread, lift, lo, hi, data, out)
    }
}

/// Every value is lifted: without a spread to one or zero, else positive ones by
/// `lift` and others to zero.
pub open spec fn lifted<S: Fn(Scalar, Scalar, Scalar) -> Scalar>(
    no_spread: bool,
    lift: S,
    lo: Scalar,
    hi: Scalar,
    data: Seq<Scalar>,
    out: Seq<Scalar>,
) -> bool {
    forall|i: int|
        #![trigger out[i]]
        0 <= i < out.len() ==> if no_spread {
            out[i] == indicator(data[i])
        } else if (Scalar { bits: 0 }).lt(data[i]) {
            call_ensures(lift, (lo, hi, data[i]), out[i])
        } else {
            out[i] == (Scalar { bits: 0 })
        }
}

/// Stretches what a filter kept; what it dropped stays zero.
pub fn post_normalize_filtered<
    F: Fn(Scalar, Scalar) -> bool,
    S: Fn(Scalar, Scalar, Scalar) -> Scalar,
>(data: &[Scalar], flat: &F, lift: &S) -> (out: Vec<Scalar>)
    requires
        stretches(*lift),
        forall|lo: Scalar, hi: Scalar| #[trigger] call_requires(*flat, (lo, hi)),
    ensures
        post_normalized(*flat, *lift, data@, out@),
{
    let pos = collect_positive(data);
    let (lo, hi) = extent(pos.as_slice());
    let mut out: Vec<Scalar> = Vec::new();
    let bounded = is_finite(&lo) && is_finite(&hi);
    if !bounded {
        let mut i: usize = 0;
        while i < data.len()
            invariant
                i <= data@.len(),
                out@.len() == i,
                forall|k: int| #![trigger out@[k]] 0 <= k < i ==> out@[k] == data@[k],
            decreases data@.len() - i,
        {
            out.push(data[i]);
            i += 1;
        }
        assert(out@ =~= data@);
        return out;
    }
    let no_spread = flat(lo, hi);
    let zero = Scalar::zero();
    let one = Scalar::new(crate::scalar::ONE_BITS);
    let mut i: usize = 0;
    while i < data.len()
        invariant
            i <= data@.len(),
            stretches(*lift),
            zero == (Scalar { bits: 0 }),
            one == (Scalar { bits: crate::scalar::ONE_BITS }),
            out@.len() == i,
            lifted(no_spread, *lift, lo, hi, data@, out@),
        decreases data@.len() - i,
    {
        let ghost before = out@;
        if zero.less(&data[i]) {
            if no_spread {
                out.push(one);
            } else {
                assert(call_requires(*lift, (lo, hi, data@[i as int])));
                out.push(lift(lo, hi, data[i]));
            }
        } else {
            out.push(zero);
        }
        assert forall|k: int| #![trigger out@[k]] 0 <= k < out@.len() implies if no_spread {
            out@[k] == indicator(data@[k])
        } else if (Scalar { bits: 0 }).lt(data@[k]) {
            call_ensures(*lift, (lo, hi, data@[k]), out@[k])
        } else {
            out@[k] == (Scalar { bits: 0 })
        } by {
            if k < i {
                assert(out@[k] == before[k]);
            }
        }
        i += 1;
    }
    out
}

/// The brightness by which a filter judges: the values themselves, or the
/// normalised ones where a threshold is meant for those.
pub open spec fn brightness_of<S: Fn(Scalar, Scalar, Scalar) -> Scalar>(
    f: FilterParams,
    stretch: S,
    data: Seq<Scalar>,
    b: Seq<Scalar>,
) -> bool {
    if f.method@ == "threshold"@ && f.normalize_before == Some(true) {
        stretched(
            stretch,
            least_of(data, data.len() as int),
            greatest_of(data, data.len() as int),
            data,
            b,
        )
    } else {
        b == data
    }
}

/// The threshold of a filter: the given one, or the value at the rank that the
/// quantile asks for.
pub open spec fn threshold_of<R: Fn(Scalar, usize) -> usize>(
    f: FilterParams,
    rank: R,
    data: Seq<Scalar>,
    t: Scalar,
) -> bool {
    if f.method@ == "threshold"@ {
        f.threshold == Some(t)
    } else {
        exists|pos: usize|
            {
                &&& #[trigger] call_ensures(rank, (f.quantile->Some_0, data.len() as usize), pos)
                &&& ranked(data, capped(pos as int, data.len() as int), t)
            }
    }
}

/// `out` is what a filter leaves of the data.
pub open spec fn filtered_to<
    R: Fn(Scalar, usize) -> usize,
    F: Fn(Scalar, Scalar) -> bool,
    S: Fn(Scalar, Scalar, Scalar) -> Scalar,
    L: Fn(Scalar, Scalar, Scalar) -> Scalar,
>(
    f: FilterParams,
    rank: R,
    stretch: S,
    post_normalize: bool,
    flat: F,
    lift: L,
    data: Seq<Scalar>,
    out: Seq<Scalar>,
) -> bool {
    exists|b: Seq<Scalar>, t: Scalar|
        {
            &&& #[trigger] brightness_of(f, stretch, data, b)
            &&& #[trigger] threshold_of(f, rank, data, t)
            &&& if post_normalize {
                post_normalized(flat, lift, kept(data, b, t), out)
            } else {
                out == kept(data, b, t)
            }
        }
}

fn copy_all(data: &[Scalar]) -> (out: Vec<Scalar>)
    ensures
        out@ == data@,
{
    let mut out: Vec<Scalar> = Vec::new();
    let mut i: usize = 0;
    while i < data.len()
        invariant
            i <= data@.len(),
            out@.len() == i,
            forall|k: int| #![trigger out@[k]] 0 <= k < i ==> out@[k] == data@[k],
        decreases data@.len() - i,
    {
        out.push(data[i]);
        i += 1;
    }
    assert(out@ =~= data@);
    out
}

/// Drops the values that are not bright enough. `rank` gives the rank of the
/// threshold for a quantile, `stretch` normalises a value to the range of the
/// data; with `post_normalize`, what is kept is stretched by `lift`, or becomes
/// one where `flat` finds no spread.
pub fn apply_filter<
    R: Fn(Scalar, usize) -> usize,
    F: Fn(Scalar, Scalar) -> bool,
    S: Fn(Scalar, Scalar, Scalar) -> Scalar,
    L: Fn(Scalar, Scalar, Scalar) -> Scalar,
>(
    data: &[Scalar],
    filter: &FilterParams,
    rank: &R,
    stretch: &S,
    post_normalize: bool,
    flat: &F,
    lift: &L,
) -> (out: Vec<Scalar>)
    requires
        filter_verdict(*filter) is Ok,
        filter.method@ == "quantile"@ ==> all_numbers(data@),
        forall|q: Scalar, n: usize| #[trigger] call_requires(*rank, (q, n)),
        stretches(*stretch),
        stretches(*lift),
        forall|lo: Scalar, hi: Scalar| #[trigger] call_requires(*flat, (lo, hi)),
    ensures
        data@.len() == 0 ==> out@.len() == 0,
        data@.len() > 0 ==> filtered_to(
            *filter,
            *rank,
            *stretch,
            post_normalize,
            *flat,
            *lift,
            data@,
            out@,
        ),
{
    let n = data.len();
    if n == 0 {
        return Vec::new();
    }
    let by_threshold = filter.method == String::from_str("threshold");
    let normalize = match filter.normalize_before {
        Some(b) => b,
        None => false,
    };
    let brightness: Vec<Scalar> = if by_threshold && normalize {
        let (lo, hi) = extent(data);
        stretch_all(stretch, lo, hi, data)
    } else {
        copy_all(data)
    };
    assert(brightness_of(*filter, *stretch, data@, brightness@));
    let t: Scalar = if by_threshold {
        match filter.threshold {
            Some(t) => t,
            None => Scalar::zero(),
        }
    } else {
        let q = match filter.quantile {
            Some(q) => q,
            None => Scalar::zero(),
        };
        assert(call_requires(*rank, (q, n)));
        let pos = rank(q, n);
        value_at_rank(data, pos)
    };
    assert(threshold_of(*filter, *rank, data@, t));
    let left = keep_bright(data, brightness.as_slice(), t);
    if post_normalize {
        post_normalize_filtered(left.as_slice(), flat, lift)
    } else {
        left
    }
}

/// What a filter drops is zero, and what it keeps without stretching is
/// unchanged.
pub proof fn kept_or_zero(data: Seq<Scalar>, b: Seq<Scalar>, t: Scalar, i: int)
    requires
        0 <= i < data.len(),
    ensures
        kept(data, b, t)[i] == data[i] || kept(data, b, t)[i].bits == 0,
        t.le(b[i]) ==> kept(data, b, t)[i] == data[i],
        !t.le(b[i]) ==> kept(data, b, t)[i].bits == 0,
{
}

/// The positions of the values that a threshold drops.
pub open spec fn dropped(data: Seq<Scalar>, t: Scalar) -> Set<int> {
    vstd::set_lib::set_int_range(0, data.len() as int).filter(|i: int| !t.le(data[i]))
}

/// A filter by quantile drops no more values than the rank of its threshold says.
pub proof fn quantile_drops_few(data: Seq<Scalar>, pos: int, t: Scalar)
    requires
        all_numbers(data),
        0 <= pos < data.len(),
        ranked(data, pos, t),
    ensures
        dropped(data, t).len() <= pos,
{
    few_below_rank(data, pos, t);
    assert(dropped(data, t) =~= below(data, t)) by {
        assert forall|i: int| dropped(data, t).contains(i) == below(data, t).contains(i) by {
            if 0 <= i < data.len() {
                assert(!data[i].is_nan());
                assert(!t.is_nan()) by {
                    let p = choose|p: Seq<usize>| #[trigger]
                        ascending(data, p) && t == data[p[pos] as int];
                    assert(p[pos] < data.len());
                }
            }
        }
    }
}

/// A filter by threshold without stretching keeps exactly the values at or above
/// the threshold, as they are, and makes all others zero.
pub proof fn threshold_keeps_the_bright<
    R: Fn(Scalar, usize) -> usize,
    F: Fn(Scalar, Scalar) -> bool,
    S: Fn(Scalar, Scalar, Scalar) -> Scalar,
    L: Fn(Scalar, Scalar, Scalar) -> Scalar,
>(
    f: FilterParams,
    rank: R,
    stretch: S,
    flat: F,
    lift: L,
    data: Seq<Scalar>,
    out: Seq<Scalar>,
    i: int,
)
    requires
        filtered_to(f, rank, stretch, false, flat, lift, data, out),
        f.method@ == "threshold"@,
        f.threshold is Some,
        f.normalize_before != Some(true),
        0 <= i < data.len(),
    ensures
        out.len() == data.len(),
        f.threshold->Some_0.le(data[i]) ==> out[i] == data[i],
        !f.threshold->Some_0.le(data[i]) ==> out[i].bits == 0,
{
}

/// A filter by threshold after stretching compares the stretched values, and keeps
/// the values themselves.
pub proof fn stretched_threshold_compares_stretched<
    R: Fn(Scalar, usize) -> usize,
    F: Fn(Scalar, Scalar) -> bool,
    S: Fn(Scalar, Scalar, Scalar) -> Scalar,
    L: Fn(Scalar, Scalar, Scalar) -> Scalar,
>(
    f: FilterParams,
    rank: R,
    stretch: S,
    flat: F,
    lift: L,
    data: Seq<Scalar>,
    out: Seq<Scalar>,
    i: int,
) -> (b: Scalar)
    requires
        filtered_to(f, rank, stretch, false, flat, lift, data, out),
        f.method@ == "threshold"@,
        f.threshold is Some,
        f.normalize_before == Some(true),
        0 <= i < data.len(),
    ensures
        call_ensures(
            stretch,
            (
                least_of(data, data.len() as int),
                greatest_of(data, data.len() as int),
                data[i],
            ),
            b,
        ),
        f.threshold->Some_0.le(b) ==> out[i] == data[i],
        !f.threshold->Some_0.le(b) ==> out[i].bits == 0,
{
    let (b, t) = choose|b: Seq<Scalar>, t: Scalar|
        {
            &&& #[trigger] brightness_of(f, stretch, data, b)
            &&& #[trigger] threshold_of(f, rank, data, t)
            &&& out == kept(data, b, t)
        };
    assert(call_ensures(
        stretch,
        (
            least_of(data, data.len() as int),
            greatest_of(data, data.len() as int),
            data[i],
        ),
        b[i],
    ));
    b[i]
}

/// A filter by quantile never keeps a value while it drops a greater one.
pub proof fn quantile_keeps_the_brightest<
    R: Fn(Scalar, usize) -> usize,
    F: Fn(Scalar, Scalar) -> bool,
    S: Fn(Scalar, Scalar, Scalar) -> Scalar,
    L: Fn(Scalar, Scalar, Scalar) -> Scalar,
>(
    f: FilterParams,
    rank: R,
    stretch: S,
    flat: F,
    lift: L,
    data: Seq<Scalar>,
    out: Seq<Scalar>,
    i: int,
    j: int,
)
    requires
        filtered_to(f, rank, stretch, false, flat, lift, data, out),
        f.method@ != "threshold"@,
        0 <= i < data.len(),
        0 <= j < data.len(),
        data[i].le(data[j]),
        out[i] == data[i],
        data[i].bits != 0,
    ensures
        out[j] == data[j],
{
}

/// What a filter has dropped stays zero when the rest is lifted, and what it has
/// kept is lifted between the least and the greatest positive value.
pub proof fn lifting_keeps_zeros<
    F: Fn(Scalar, Scalar) -> bool,
    S: Fn(Scalar, Scalar, Scalar) -> Scalar,
>(flat: F, lift: S, data: Seq<Scalar>, out: Seq<Scalar>, i: int)
    requires
        post_normalized(flat, lift, data, out),
        0 <= i < data.len(),
    ensures
        data[i].bits == 0 ==> out[i].bits == 0,
        ({
            let pos = positive_values(data, data.len() as int);
            let lo = least_of(pos, pos.len() as int);
            let hi = greatest_of(pos, pos.len() as int);
            lo.is_finite() && hi.is_finite() && (Scalar { bits: 0 }).lt(data[i]) ==> call_ensures(
                lift,
                (lo, hi, data[i]),
                out[i],
            ) || out[i].bits == 0x3FF0_0000_0000_0000
        }),
{
}

/// The positive values are exactly those above zero.
pub proof fn positive_values_are_positive(data: Seq<Scalar>, k: int, i: int)
    requires
        0 <= i < k <= data.len(),
    ensures
        (Scalar { bits: 0 }).lt(data[i]) ==> positive_values(data, k).contains(data[i]),
        forall|m: int|
            #![trigger positive_values(data, k)[m]]
            0 <= m < positive_values(data, k).len() ==> (Scalar { bits: 0 }).lt(
                positive_values(data, k)[m],
            ),
    decreases k,
{
    let now = positive_values(data, k);
    let before = positive_values(data, k - 1);
    if k > 1 {
        positive_values_are_positive(
            data,
            k - 1,
            if i < k - 1 {
                i
            } else {
                0
            },
        );
    }
    assert forall|m: int| #![trigger now[m]] 0 <= m < now.len() implies (Scalar { bits: 0 }).lt(
        now[m],
    ) by {
        if m < before.len() {
            assert(now[m] == before[m]);
        }
    }
    if (Scalar { bits: 0 }).lt(data[i]) {
        if i < k - 1 {
            let m = choose|m: int| 0 <= m < before.len() && before[m] == data[i];
            assert(now[m] == data[i]);
        } else {
            assert(now[before.len() as int] == data[i]);
        }
    }
}

/// The lower bound of a stretch does not exceed the upper one where its rank does
/// not.
pub proof fn rank_bounds_are_ordered(
    data: Seq<Scalar>,
    lo_pos: int,
    hi_pos: int,
    lo: Scalar,
    hi: Scalar,
)
    requires
        all_numbers(data),
        data.len() > 0,
        0 <= lo_pos <= hi_pos,
        rank_bounds(data, lo_pos, hi_pos, lo, hi),
    ensures
        lo.le(hi),
        below(data, lo).len() <= lo_pos,
{
    let n = data.len() as int;
    let a = capped(lo_pos, n);
    let b = capped(hi_pos, n);
    let p = choose|p: Seq<usize>| #[trigger] ascending(data, p) && lo == data[p[a] as int];
    let q = choose|q: Seq<usize>| #[trigger] ascending(data, q) && hi == data[q[b] as int];
    crate::order::order_unique(crate::quantile::ordinals(data), p, q);
    crate::quantile::ranks_ascend(data, p, a, b);
    few_below_rank(data, a, lo);
}

/// Of the four ranks the first is the least value, the last the greatest, and the
/// two between are in order.
pub proof fn four_ranks_are_ordered(
    data: Seq<Scalar>,
    lo_pos: int,
    hi_pos: int,
    r: (Scalar, Scalar, Scalar, Scalar),
    i: int,
)
    requires
        all_numbers(data),
        0 <= i < data.len(),
        0 <= lo_pos <= hi_pos,
        four_ranks(data, lo_pos, hi_pos, r),
    ensures
        r.0.le(data[i]),
        data[i].le(r.3),
        r.0.le(r.1),
        r.1.le(r.2),
        r.2.le(r.3),
{
    let n = data.len() as int;
    let p = choose|p: Seq<usize>|
        {
            &&& #[trigger] ascending(data, p)
            &&& r.0 == data[p[0] as int]
            &&& r.1 == data[p[capped(lo_pos, n)] as int]
            &&& r.2 == data[p[capped(hi_pos, n)] as int]
            &&& r.3 == data[p[n - 1] as int]
        };
    crate::quantile::ranks_ascend(data, p, 0, capped(lo_pos, n));
    crate::quantile::ranks_ascend(data, p, capped(lo_pos, n), capped(hi_pos, n));
    crate::quantile::ranks_ascend(data, p, capped(hi_pos, n), n - 1);
    crate::order::permutation_reaches(p, n, i);
    let k = choose|k: int| 0 <= k < p.len() && p[k] == i;
    crate::quantile::ranks_ascend(data, p, 0, k);
    crate::quantile::ranks_ascend(data, p, k, n - 1);
}

/// A flat map that lies between zero and one, but for a billionth, is kept; any
/// other is stretched between the two bounds.
pub proof fn flat_unit_maps_are_kept<
    F: Fn(Scalar, Scalar) -> bool,
    S: Fn(Scalar, Scalar, Scalar) -> Scalar,
>(
    flat: F,
    stretch: S,
    data: Seq<Scalar>,
    r: (Scalar, Scalar, Scalar, Scalar),
    out: Seq<Scalar>,
    i: int,
)
    requires
        unit_normalized(flat, stretch, data, r, out),
        forall|x: bool| #[trigger] call_ensures(flat, (r.1, r.2), x) ==> x,
        (Scalar { bits: 0xBE11_2E0B_E826_D695 }).le(r.0),
        r.3.le(Scalar { bits: 0x3FF0_0000_0044_B830 }),
        0 <= i < data.len(),
        (Scalar { bits: 0 }).le(data[i]),
        data[i].le(Scalar { bits: 0x3FF0_0000_0000_0000 }),
    ensures
        out.len() == data.len(),
        out[i] == data[i],
{
}

/// A map with spread, or one that leaves the unit range, is stretched.
pub proof fn other_maps_are_stretched<
    F: Fn(Scalar, Scalar) -> bool,
    S: Fn(Scalar, Scalar, Scalar) -> Scalar,
>(
    flat: F,
    stretch: S,
    data: Seq<Scalar>,
    r: (Scalar, Scalar, Scalar, Scalar),
    out: Seq<Scalar>,
    i: int,
)
    requires
        unit_normalized(flat, stretch, data, r, out),
        (forall|x: bool| #[trigger] call_ensures(flat, (r.1, r.2), x) ==> !x) || r.0.lt(
            Scalar { bits: 0xBE11_2E0B_E826_D695 },
        ) || (Scalar { bits: 0x3FF0_0000_0044_B830 }).lt(r.3),
        0 <= i < data.len(),
    ensures
        out.len() == data.len(),
        call_ensures(stretch, (r.1, r.2, data[i]), out[i]),
{
}

/// Without stretching, weights are the values held to the unit range.
pub proof fn direct_weights_are_held<S: Fn(Scalar, Scalar, Scalar) -> Scalar>(
    stretch: S,
    hybrid: Seq<Scalar>,
    weights: Seq<Scalar>,
    i: int,
)
    requires
        direct_weights(stretch, hybrid, false, weights),
        0 <= i < hybrid.len(),
    ensures
        weights.len() == hybrid.len(),
        hybrid[i].lt(Scalar { bits: 0 }) ==> weights[i].bits == 0,
        (Scalar { bits: 0x3FF0_0000_0000_0000 }).lt(hybrid[i]) ==> weights[i].bits
            == 0x3FF0_0000_0000_0000,
        (Scalar { bits: 0 }).le(hybrid[i]) && hybrid[i].le(
            Scalar { bits: 0x3FF0_0000_0000_0000 },
        ) ==> weights[i] == hybrid[i],
{
}

/// `out` holds the pixels scaled by their weights.
pub open spec fn weighted<M: Fn([Scalar; 3], Scalar) -> [Scalar; 3]>(
    scale: M,
    rgb: Seq<[Scalar; 3]>,
    weights: Seq<Scalar>,
    out: Seq<[Scalar; 3]>,
) -> bool {
    &&& out.len() == if rgb.len() <= weights.len() {
        rgb.len()
    } else {
        weights.len()
    }
    &&& forall|i: int|
        #![trigger out[i]]
        0 <= i < out.len() ==> call_ensures(scale, (rgb[i], weights[i]), out[i])
}

/// Scales every pixel by its weight.
pub fn composite_with_hybrid<M: Fn([Scalar; 3], Scalar) -> [Scalar; 3]>(
    rgb: &[[Scalar; 3]],
    filtered: &[Scalar],
    scale: &M,
) -> (out: Vec<[Scalar; 3]>)
    requires
        forall|p: [Scalar; 3], w: Scalar| #[trigger] call_requires(*scale, (p, w)),
    ensures
        weighted(*scale, rgb@, filtered@, out@),
{
    let n: usize = if rgb.len() <= filtered.len() {
        rgb.len()
    } else {
        filtered.len()
    };
    let mut out: Vec<[Scalar; 3]> = Vec::new();
    let mut i: usize = 0;
    while i < n
        invariant
            i <= n <= rgb@.len(),
            n <= filtered@.len(),
            forall|p: [Scalar; 3], w: Scalar| #[trigger] call_requires(*scale, (p, w)),
            out@.len() == i,
            forall|k: int|
                #![trigger out@[k]]
                0 <= k < i ==> call_ensures(*scale, (rgb@[k], filtered@[k]), out@[k]),
        decreases n - i,
    {
        assert(call_requires(*scale, (rgb@[i as int], filtered@[i as int])));
        out.push(scale(rgb[i], filtered[i]));
        i += 1;
    }
    out
}

/// The weights are the map: normalised to its range, or held to the unit range.
pub open spec fn direct_weights<S: Fn(Scalar, Scalar, Scalar) -> Scalar>(
    stretch: S,
    hybrid: Seq<Scalar>,
    normalize_before: bool,
    weights: Seq<Scalar>,
) -> bool {
    if normalize_before {
        stretched(
            stretch,
            least_of(hybrid, hybrid.len() as int),
            greatest_of(hybrid, hybrid.len() as int),
            hybrid,
            weights,
        )
    } else {
        weights == units(hybrid)
    }
}

/// Makes weights of a map: normalised to its range, or held to the unit range.
pub fn unit_weights<S: Fn(Scalar, Scalar, Scalar) -> Scalar>(
    hybrid: &[Scalar],
    normalize_before: bool,
    stretch: &S,
) -> (weights: Vec<Scalar>)
    requires
        stretches(*stretch),
    ensures
        direct_weights(*stretch, hybrid@, normalize_before, weights@),
        weights@.len() == hybrid@.len(),
{
    if normalize_before {
        let (lo, hi) = extent(hybrid);
        stretch_all(stretch, lo, hi, hybrid)
    } else {
        clamp_all(hybrid)
    }
}

/// Scales every pixel by the unfiltered map.
pub fn composite_with_hybrid_direct<
    S: Fn(Scalar, Scalar, Scalar) -> Scalar,
    M: Fn([Scalar; 3], Scalar) -> [Scalar; 3],
>(
    rgb: &[[Scalar; 3]],
    hybrid: &[Scalar],
    normalize_before: bool,
    stretch: &S,
    scale: &M,
) -> (out: Vec<[Scalar; 3]>)
    requires
        stretches(*stretch),
        forall|p: [Scalar; 3], w: Scalar| #[trigger] call_requires(*scale, (p, w)),
    ensures
        exists|weights: Seq<Scalar>| #[trigger]
            direct_weights(*stretch, hybrid@, normalize_before, weights) && weighted(
                *scale,
                rgb@,
                weights,
                out@,
            ),
{
    let weights = unit_weights(hybrid, normalize_before, stretch);
    assert(direct_weights(*stretch, hybrid@, normalize_before, weights@));
    composite_with_hybrid(rgb, weights.as_slice(), scale)
}

} // verus!
