//! Soft masks of background and foreground.

use vstd::prelude::*;
use crate::fusion::{clamp_all, least_of, units};
use crate::quantile::all_numbers;
use crate::scalar::{all_unit, clamp_unit, in_unit, unit, Scalar, MAX_BITS, ONE_BITS};

verus! {

/// The grey levels among the first `k`.
pub open spec fn levels_seen(levels: Seq<u8>, k: int) -> Set<u8>
    decreases k,
{
    if k <= 0 {
        Set::empty()
    } else {
        levels_seen(levels, k - 1).insert(levels[k - 1])
    }
}

/// Number of different grey levels, counted up to three.
pub open spec fn level_kinds(levels: Seq<u8>) -> int {
    let n = levels_seen(levels, levels.len() as int).len() as int;
    if n <= 3 {
        n
    } else {
        3
    }
}

proof fn seen_is_finite(levels: Seq<u8>, k: int)
    ensures
        levels_seen(levels, k).finite(),
    decreases k,
{
    if k > 0 {
        seen_is_finite(levels, k - 1);
    }
}

proof fn seen_grows(levels: Seq<u8>, k: int, n: int)
    requires
        k <= n,
    ensures
        levels_seen(levels, k).subset_of(levels_seen(levels, n)),
        levels_seen(levels, k).len() <= levels_seen(levels, n).len(),
    decreases n - k,
{
    if k < n {
        seen_grows(levels, k, n - 1);
        if n > 0 {
            seen_is_finite(levels, n - 1);
        }
    }
}

/// Number of different grey levels, counted up to three.
pub fn count_levels(levels: &[u8]) -> (kinds: usize)
    ensures
        kinds == level_kinds(levels@),
{
    let ghost n = levels@.len() as int;
    let mut seen: Vec<u8> = Vec::new();
    let mut i: usize = 0;
    while i < levels.len()
        invariant
            i <= levels@.len(),
            n == levels@.len(),
            seen@.len() <= 2,
            seen@.no_duplicates(),
            seen@.to_set() == levels_seen(levels@, i as int),
        decreases levels@.len() - i,
    {
        let v = levels[i];
        let mut known = false;
        let mut j: usize = 0;
        while j < seen.len()
            invariant
                j <= seen@.len(),
                known <==> exists|m: int| 0 <= m < j && seen@[m] == v,
            decreases seen@.len() - j,
        {
            if seen[j] == v {
                known = true;
            }
            j += 1;
        }
        let ghost before = seen@;
        if !known {
            seen.push(v);
            assert(seen@.to_set() =~= before.to_set().insert(v)) by {
                assert forall|x: u8| seen@.to_set().contains(x) <==> before.to_set().insert(
                    v,
                ).contains(x) by {
                    if before.contains(x) {
                        let m = choose|m: int| 0 <= m < before.len() && before[m] == x;
                        assert(seen@[m] == x);
                    }
                    if x == v {
                        assert(seen@[before.len() as int] == x);
                    }
                    if seen@.contains(x) {
                        let m = choose|m: int| 0 <= m < seen@.len() && seen@[m] == x;
                        if m < before.len() {
                            assert(before[m] == x);
                        }
                    }
                }
            }
            if seen.len() > 2 {
                proof {
                    seen@.unique_seq_to_set();
                    seen_grows(levels@, i + 1, n);
                }
                return 3;
            }
        } else {
            assert(seen@.contains(v));
            assert(seen@.to_set() =~= seen@.to_set().insert(v));
        }
        i += 1;
    }
    proof {
        seen@.unique_seq_to_set();
    }
    seen.len()
}

/// How much a partition counts against the border's likelihood.
#[derive(Clone, Copy, Debug, PartialEq, Eq, Structural)]
pub enum PartitionWeight {
    /// Not at all: the mask is all background or all foreground.
    Ignored,
    /// Less: the mask is black and white.
    Hard,
    /// More: the mask has shades.
    Soft,
}

/// Bit pattern of 0.02.
pub const NEARLY_NONE_BITS: u64 = 0x3F94_7AE1_47AE_147B;

/// Bit pattern of 0.98.
pub const NEARLY_ALL_BITS: u64 = 0x3FEF_5C28_F5C2_8F5C;

/// How much a mask with this many levels and this mean counts.
pub open spec fn mask_weight(kinds: int, mean: Scalar) -> PartitionWeight {
    if kinds <= 2 && (mean.le(Scalar { bits: NEARLY_NONE_BITS }) || (Scalar {
        bits: NEARLY_ALL_BITS,
    }).le(mean)) {
        PartitionWeight::Ignored
    } else if kinds <= 2 {
        PartitionWeight::Hard
    } else {
        PartitionWeight::Soft
    }
}

/// A mask with shades counts more; one in black and white counts less, and not at
/// all where its mean is at most 0.02 or at least 0.98.
pub proof fn masks_weigh_by_their_shades(kinds: int, mean: Scalar)
    ensures
        kinds >= 3 ==> mask_weight(kinds, mean) is Soft,
        kinds <= 2 && mean.le(Scalar { bits: 0x3F94_7AE1_47AE_147B }) ==> mask_weight(kinds, mean)
            is Ignored,
        kinds <= 2 && (Scalar { bits: 0x3FEF_5C28_F5C2_8F5C }).le(mean) ==> mask_weight(
            kinds,
            mean,
        ) is Ignored,
        kinds <= 2 && (Scalar { bits: 0x3F94_7AE1_47AE_147B }).lt(mean) && mean.lt(
            Scalar { bits: 0x3FEF_5C28_F5C2_8F5C },
        ) ==> mask_weight(kinds, mean) is Hard,
{
}

proof fn seen_exactly(levels: Seq<u8>, k: int)
    requires
        0 <= k <= levels.len(),
    ensures
        levels_seen(levels, k).finite(),
        forall|i: int|
            #![trigger levels[i]]
            0 <= i < k ==> levels_seen(levels, k).contains(levels[i]),
        forall|v: u8|
            levels_seen(levels, k).contains(v) ==> exists|i: int|
                #![trigger levels[i]]
                0 <= i < k && levels[i] == v,
    decreases k,
{
    if k > 0 {
        seen_exactly(levels, k - 1);
        assert forall|v: u8| levels_seen(levels, k).contains(v) implies exists|i: int|
            #![trigger levels[i]]
            0 <= i < k && levels[i] == v by {
            if v == levels[k - 1] {
                assert(levels[k - 1] == v);
            } else {
                let i = choose|i: int|
                    #![trigger levels[i]]
                    0 <= i < k - 1 && levels[i] == v;
                assert(levels[i] == v);
            }
        }
    }
}

/// Three different levels are three kinds; where all levels are one of two, there
/// are at most two kinds.
pub proof fn kinds_count_levels(levels: Seq<u8>, a: int, b: int, c: int, u: u8, v: u8)
    requires
        0 <= a < levels.len(),
        0 <= b < levels.len(),
        0 <= c < levels.len(),
    ensures
        levels[a] != levels[b] && levels[b] != levels[c] && levels[a] != levels[c]
            ==> level_kinds(levels) == 3,
        (forall|i: int| #![trigger levels[i]] 0 <= i < levels.len() ==> levels[i] == u || levels[i]
            == v) ==> level_kinds(levels) <= 2,
        (forall|i: int| #![trigger levels[i]] 0 <= i < levels.len() ==> levels[i] == u)
            ==> level_kinds(levels) == 1,
{
    let n = levels.len() as int;
    let seen = levels_seen(levels, n);
    seen_exactly(levels, n);
    assert(levels[a] == levels[a] && levels[b] == levels[b] && levels[c] == levels[c]);
    if levels[a] != levels[b] && levels[b] != levels[c] && levels[a] != levels[c] {
        let three = Set::empty().insert(levels[a]).insert(levels[b]).insert(levels[c]);
        assert(three.len() == 3);
        assert(three.subset_of(seen));
        vstd::set_lib::lemma_len_subset(three, seen);
    }
    if forall|i: int| #![trigger levels[i]] 0 <= i < levels.len() ==> levels[i] == u || levels[i]
        == v {
        let two = Set::empty().insert(u).insert(v);
        assert(two.len() <= 2);
        assert(seen.subset_of(two));
        vstd::set_lib::lemma_len_subset(seen, two);
    }
    if forall|i: int| #![trigger levels[i]] 0 <= i < levels.len() ==> levels[i] == u {
        let one = Set::empty().insert(u);
        assert(one.len() == 1);
        assert(seen =~= one);
    }
}

/// How much a mask counts.
pub fn weigh_mask(kinds: usize, mean: Scalar) -> (w: PartitionWeight)
    ensures
        w == mask_weight(kinds as int, mean),
{
    let none = Scalar::new(NEARLY_NONE_BITS);
    let all = Scalar::new(NEARLY_ALL_BITS);
    if kinds <= 2 && (mean.at_most(&none) || all.at_most(&mean)) {
        PartitionWeight::Ignored
    } else if kinds <= 2 {
        PartitionWeight::Hard
    } else {
        PartitionWeight::Soft
    }
}

/// `out` blends the mask with the border's likelihood, pixel by pixel.
pub open spec fn blended_masks<B: Fn(PartitionWeight, Scalar, Scalar) -> Scalar>(
    blend: B,
    weight: PartitionWeight,
    mask: Seq<Scalar>,
    border: Seq<Scalar>,
    out: Seq<Scalar>,
) -> bool {
    &&& out.len() == if mask.len() <= border.len() {
        mask.len()
    } else {
        border.len()
    }
    &&& forall|i: int|
        #![trigger out[i]]
        0 <= i < out.len() ==> call_ensures(blend, (weight, mask[i], border[i]), out[i])
}

/// Blends a mask with the likelihood that the border gives. `levels` are the
/// mask's values in 8 bits, `mean` is their mean.
pub fn soft_background_from_partition<B: Fn(PartitionWeight, Scalar, Scalar) -> Scalar>(
    mask: &[Scalar],
    levels: &[u8],
    mean: Scalar,
    border: &[Scalar],
    blend: &B,
) -> (out: Vec<Scalar>)
    requires
        forall|w: PartitionWeight, a: Scalar, b: Scalar| #[trigger] call_requires(*blend, (w, a, b)),
    ensures
        blended_masks(*blend, mask_weight(level_kinds(levels@), mean), mask@, border@, out@),
{
    let kinds = count_levels(levels);
    let weight = weigh_mask(kinds, mean);
    let n: usize = if mask.len() <= border.len() {
        mask.len()
    } else {
        border.len()
    };
    let mut out: Vec<Scalar> = Vec::new();
    let mut i: usize = 0;
    while i < n
        invariant
            i <= n <= mask@.len(),
            n <= border@.len(),
            forall|w: PartitionWeight, a: Scalar, b: Scalar| #[trigger]
                call_requires(*blend, (w, a, b)),
            out@.len() == i,
            forall|k: int|
                #![trigger out@[k]]
                0 <= k < i ==> call_ensures(*blend, (weight, mask@[k], border@[k]), out@[k]),
        decreases n - i,
    {
        assert(call_requires(*blend, (weight, mask@[i as int], border@[i as int])));
        out.push(blend(weight, mask[i], border[i]));
        i += 1;
    }
    out
}

/// `best` is the least of the distances between pixel `i` and the prototypes.
pub open spec fn nearest_distance<D: Fn(usize, usize) -> Scalar>(
    distance: D,
    i: usize,
    prototypes: Seq<usize>,
    best: Scalar,
) -> bool {
    exists|ds: Seq<Scalar>|
        #[trigger] distances(distance, i, prototypes, ds) && best == least_of(
            ds,
            ds.len() as int,
        )
}

/// `ds` holds the distances between pixel `i` and the prototypes.
pub open spec fn distances<D: Fn(usize, usize) -> Scalar>(
    distance: D,
    i: usize,
    prototypes: Seq<usize>,
    ds: Seq<Scalar>,
) -> bool {
    &&& ds.len() == prototypes.len()
    &&& forall|k: int|
        #![trigger ds[k]]
        0 <= k < ds.len() ==> call_ensures(distance, (i, prototypes[k]), ds[k])
}

/// The distance of a pixel to the nearest prototype; the largest number where
/// there is none.
pub fn nearest_prototype<D: Fn(usize, usize) -> Scalar>(
    i: usize,
    prototypes: &[usize],
    distance: &D,
) -> (best: Scalar)
    requires
        forall|a: usize, b: usize| #[trigger] call_requires(*distance, (a, b)),
    ensures
        nearest_distance(*distance, i, prototypes@, best),
{
    let mut best = Scalar::new(MAX_BITS);
    let ghost mut ds: Seq<Scalar> = Seq::empty();
    let mut k: usize = 0;
    while k < prototypes.len()
        invariant
            k <= prototypes@.len(),
            forall|a: usize, b: usize| #[trigger] call_requires(*distance, (a, b)),
            ds.len() == k,
            best == least_of(ds, k as int),
            forall|m: int|
                #![trigger ds[m]]
                0 <= m < k ==> call_ensures(*distance, (i, prototypes@[m]), ds[m]),
        decreases prototypes@.len() - k,
    {
        assert(call_requires(*distance, (i, prototypes@[k as int])));
        let d = distance(i, prototypes[k]);
        let ghost before = ds;
        proof {
            ds = ds.push(d);
            least_of_prefix(before, ds, k as int);
        }
        if d.less(&best) {
            best = d;
        }
        k += 1;
    }
    assert(distances(*distance, i, prototypes@, ds));
    best
}

proof fn least_of_prefix(a: Seq<Scalar>, b: Seq<Scalar>, k: int)
    requires
        0 <= k <= a.len(),
        a.len() <= b.len(),
        forall|i: int| #![trigger a[i]] 0 <= i < k ==> a[i] == b[i],
    ensures
        least_of(a, k) == least_of(b, k),
    decreases k,
{
    if k > 0 {
        least_of_prefix(a, b, k - 1);
        assert(a[k - 1] == b[k - 1]);
    }
}

/// `out` holds what `invert` makes of every value.
pub open spec fn inverted<I: Fn(Scalar) -> Scalar>(
    invert: I,
    mask: Seq<Scalar>,
    out: Seq<Scalar>,
) -> bool {
    &&& out.len() == mask.len()
    &&& forall|i: int|
        #![trigger out[i]]
        0 <= i < out.len() ==> call_ensures(invert, (mask[i],), out[i])
}

fn invert_all<I: Fn(Scalar) -> Scalar>(mask: &Vec<Scalar>, invert: &I) -> (out: Vec<Scalar>)
    requires
        forall|v: Scalar| #[trigger] call_requires(*invert, (v,)),
    ensures
        inverted(*invert, mask@, out@),
{
    let mut out: Vec<Scalar> = Vec::new();
    let mut i: usize = 0;
    while i < mask.len()
        invariant
            i <= mask@.len(),
            forall|v: Scalar| #[trigger] call_requires(*invert, (v,)),
            out@.len() == i,
            forall|k: int|
                #![trigger out@[k]]
                0 <= k < i ==> call_ensures(*invert, (mask@[k],), out@[k]),
        decreases mask@.len() - i,
    {
        assert(call_requires(*invert, (mask@[i as int],)));
        out.push(invert(mask[i]));
        i += 1;
    }
    out
}

/// The distance to the nearest prototype exceeds that to none of them.
pub proof fn nearest_prototype_is_nearest<D: Fn(usize, usize) -> Scalar>(
    distance: D,
    i: usize,
    prototypes: Seq<usize>,
    best: Scalar,
) -> (ds: Seq<Scalar>)
    requires
        nearest_distance(distance, i, prototypes, best),
    ensures
        ds.len() == prototypes.len(),
        forall|k: int|
            #![trigger ds[k]]
            0 <= k < ds.len() ==> call_ensures(distance, (i, prototypes[k]), ds[k]) && (
            ds[k].is_finite() ==> best.le(ds[k])),
{
    let ds = choose|ds: Seq<Scalar>|
        #[trigger] distances(distance, i, prototypes, ds) && best == least_of(ds, ds.len() as int);
    assert forall|k: int| #![trigger ds[k]] 0 <= k < ds.len() implies call_ensures(
        distance,
        (i, prototypes[k]),
        ds[k],
    ) && (ds[k].is_finite() ==> best.le(ds[k])) by {
        if ds[k].is_finite() {
            crate::fusion::extent_bounds(ds, ds.len() as int, k);
        }
    }
    ds
}

/// A mask feature takes the foreground alone where the mean is at most 0.02 or at
/// least 0.98, and mixes it with the mask in between.
pub proof fn extreme_masks_are_left_out<M: Fn(Scalar, Scalar) -> Scalar>(
    mix: M,
    mean: Scalar,
    mask: Seq<Scalar>,
    foreground: Seq<Scalar>,
    out: Seq<Scalar>,
    i: int,
)
    requires
        mask_feature_of(mix, mean, mask, foreground, out),
        mask.len() == foreground.len(),
        0 <= i < mask.len(),
    ensures
        out.len() == mask.len(),
        mean.le(Scalar { bits: 0x3F94_7AE1_47AE_147B }) || (Scalar {
            bits: 0x3FEF_5C28_F5C2_8F5C,
        }).le(mean) ==> out[i] == foreground[i],
        (Scalar { bits: 0x3F94_7AE1_47AE_147B }).lt(mean) && mean.lt(
            Scalar { bits: 0x3FEF_5C28_F5C2_8F5C },
        ) ==> exists|raw: Scalar| #[trigger]
            call_ensures(mix, (mask[i], foreground[i]), raw) && (in_unit(raw) ==> out[i] == raw),
{
    if (Scalar { bits: 0x3F94_7AE1_47AE_147B }).lt(mean) && mean.lt(
        Scalar { bits: 0x3FEF_5C28_F5C2_8F5C },
    ) {
        assert(mixed(mix, mask[i], foreground[i], out[i]));
        let raw = choose|raw: Scalar| #[trigger]
            call_ensures(mix, (mask[i], foreground[i]), raw) && out[i] == unit(raw);
        assert(call_ensures(mix, (mask[i], foreground[i]), raw) && (in_unit(raw) ==> out[i]
            == raw));
    }
}

/// Protecting the foreground leaves a pixel outside the background at zero, and
/// without protection the mask is kept as zeros and ones.
pub proof fn protection_only_takes_away<S: Fn(Scalar, Scalar) -> Scalar>(
    shade: S,
    enabled: bool,
    mask: Seq<bool>,
    protect: Seq<Scalar>,
    out: Seq<Scalar>,
    i: int,
)
    requires
        protected_by(shade, enabled, mask, protect, out),
        forall|m: Scalar, p: Scalar, r: Scalar| #[trigger]
            call_ensures(shade, (m, p), r) ==> !r.is_nan(),
        0 <= i < out.len(),
    ensures
        !enabled && mask[i] ==> out[i].bits == 0x3FF0_0000_0000_0000,
        !enabled && !mask[i] ==> out[i].bits == 0,
        enabled && !mask[i] ==> out[i].key() == 0,
        enabled && mask[i] && i < protect.len() ==> exists|raw: Scalar| #[trigger]
            call_ensures(shade, (Scalar { bits: 0x3FF0_0000_0000_0000 }, protect[i]), raw) && (
            in_unit(raw) ==> out[i] == raw),
        enabled && mask[i] && i >= protect.len() ==> exists|raw: Scalar| #[trigger]
            call_ensures(
                shade,
                (Scalar { bits: 0x3FF0_0000_0000_0000 }, Scalar { bits: 0 }),
                raw,
            ) && (in_unit(raw) ==> out[i] == raw),
        (Scalar { bits: 0 }).le(out[i]),
        out[i].le(Scalar { bits: 0x3FF0_0000_0000_0000 }),
{
    if enabled {
        let m = mark_value(mask[i]);
        let p = protection_at(protect, i);
        let raw = choose|raw: Scalar| #[trigger]
            call_ensures(shade, (m, p), raw) && out[i] == held(raw, m);
        assert(!raw.is_nan());
        if mask[i] {
            assert(call_ensures(shade, (m, p), raw) && (in_unit(raw) ==> out[i] == raw));
        }
    }
}

/// A hard mask, with its values in 8 bits and their mean.
pub struct HardMask<'a> {
    pub mask: &'a [Scalar],
    pub levels: &'a [u8],
    pub mean: Scalar,
}

/// Soft masks: the background before and after cleaning up, and the foreground.
#[derive(Clone, Debug)]
pub struct SoftMasks {
    pub background_raw: Vec<Scalar>,
    pub background: Vec<Scalar>,
    pub foreground: Vec<Scalar>,
}

/// The masks with a partition: both backgrounds are blended with the border's
/// likelihood, the foreground is made of the cleaned one, and the final
/// background is the inverse of the foreground.
pub open spec fn refined<
    B: Fn(PartitionWeight, Scalar, Scalar) -> Scalar,
    F: Fn(&Vec<Scalar>) -> Vec<Scalar>,
    I: Fn(Scalar) -> Scalar,
>(
    raw: HardMask,
    morph: HardMask,
    border: Seq<Scalar>,
    blend: B,
    foreground: F,
    invert: I,
    m: SoftMasks,
) -> bool {
    &&& blended_masks(
        blend,
        mask_weight(level_kinds(raw.levels@), raw.mean),
        raw.mask@,
        border,
        m.background_raw@,
    )
    &&& exists|bg: Vec<Scalar>|
        {
            &&& blended_masks(
                blend,
                mask_weight(level_kinds(morph.levels@), morph.mean),
                morph.mask@,
                border,
                bg@,
            )
            &&& #[trigger] call_ensures(foreground, (&bg,), m.foreground)
        }
    &&& inverted(invert, m.foreground@, m.background@)
}

/// Makes soft masks of a partition's hard ones.
pub fn refine_soft_masks<
    B: Fn(PartitionWeight, Scalar, Scalar) -> Scalar,
    F: Fn(&Vec<Scalar>) -> Vec<Scalar>,
    I: Fn(Scalar) -> Scalar,
>(raw: &HardMask, morph: &HardMask, border: &[Scalar], blend: &B, foreground: &F, invert: &I) -> (m:
    SoftMasks)
    requires
        forall|w: PartitionWeight, a: Scalar, b: Scalar| #[trigger] call_requires(*blend, (w, a, b)),
        forall|v: &Vec<Scalar>| #[trigger] call_requires(*foreground, (v,)),
        forall|v: Scalar| #[trigger] call_requires(*invert, (v,)),
    ensures
        refined(*raw, *morph, border@, *blend, *foreground, *invert, m),
{
    let background_raw = soft_background_from_partition(
        raw.mask,
        raw.levels,
        raw.mean,
        border,
        blend,
    );
    let bg = soft_background_from_partition(morph.mask, morph.levels, morph.mean, border, blend);
    assert(call_requires(*foreground, (&bg,)));
    let fg = foreground(&bg);
    let background = invert_all(&fg, invert);
    assert(call_ensures(*foreground, (&bg,), fg));
    SoftMasks { background_raw, background, foreground: fg }
}

/// The masks without a partition: the foreground is made of the border's
/// likelihood, and both backgrounds are its inverse.
pub open spec fn unpartitioned<F: Fn(&Vec<Scalar>) -> Vec<Scalar>, I: Fn(Scalar) -> Scalar>(
    border: Vec<Scalar>,
    foreground: F,
    invert: I,
    m: SoftMasks,
) -> bool {
    &&& call_ensures(foreground, (&border,), m.foreground)
    &&& inverted(invert, m.foreground@, m.background@)
    &&& inverted(invert, m.foreground@, m.background_raw@)
}

/// Makes the soft masks of an image: with the partition's masks where it is
/// switched on and gave any, else of the border alone.
pub fn soft_masks<
    B: Fn(PartitionWeight, Scalar, Scalar) -> Scalar,
    F: Fn(&Vec<Scalar>) -> Vec<Scalar>,
    I: Fn(Scalar) -> Scalar,
>(
    enabled: bool,
    raw: &HardMask,
    morph: &HardMask,
    border: &Vec<Scalar>,
    blend: &B,
    foreground: &F,
    invert: &I,
) -> (m: SoftMasks)
    requires
        forall|w: PartitionWeight, a: Scalar, b: Scalar| #[trigger] call_requires(*blend, (w, a, b)),
        forall|v: &Vec<Scalar>| #[trigger] call_requires(*foreground, (v,)),
        forall|v: Scalar| #[trigger] call_requires(*invert, (v,)),
    ensures
        enabled && raw.mask@.len() > 0 ==> refined(
            *raw,
            *morph,
            border@,
            *blend,
            *foreground,
            *invert,
            m,
        ),
        !(enabled && raw.mask@.len() > 0) ==> unpartitioned(*border, *foreground, *invert, m),
{
    if enabled && raw.mask.len() > 0 {
        refine_soft_masks(raw, morph, border.as_slice(), blend, foreground, invert)
    } else {
        assert(call_requires(*foreground, (border,)));
        let fg = foreground(border);
        let background = invert_all(&fg, invert);
        let background_raw = invert_all(&fg, invert);
        SoftMasks { background_raw, background, foreground: fg }
    }
}

/// The features that a background mask gives.
#[derive(Clone, Debug)]
pub struct BackgroundFeatures {
    /// The background after the foreground has been protected.
    pub protected: Vec<Scalar>,
    /// The confidence that a pixel is foreground.
    pub foreground: Vec<Scalar>,
    /// The mask as a feature: high where a pixel is foreground.
    pub mask_feature: Vec<Scalar>,
}

/// One for a marked pixel, else zero.
pub open spec fn mark_value(marked: bool) -> Scalar {
    if marked {
        Scalar { bits: ONE_BITS }
    } else {
        Scalar { bits: 0 }
    }
}

/// The protection of a pixel, zero where there is none.
pub open spec fn protection_at(protect: Seq<Scalar>, i: int) -> Scalar {
    if i < protect.len() {
        protect[i]
    } else {
        Scalar { bits: 0 }
    }
}

/// The value held between zero and `m`.
pub open spec fn held(v: Scalar, m: Scalar) -> Scalar {
    if v.lt(Scalar { bits: 0 }) {
        Scalar { bits: 0 }
    } else if m.lt(v) {
        m
    } else {
        v
    }
}

fn hold(v: Scalar, m: Scalar) -> (r: Scalar)
    ensures
        r == held(v, m),
{
    let zero = Scalar::new(0);
    if v.less(&zero) {
        zero
    } else if m.less(&v) {
        m
    } else {
        v
    }
}

/// `out` is what `shade` leaves of the mark `m` under the protection `p`, held
/// between zero and the mark.
pub open spec fn shaded<S: Fn(Scalar, Scalar) -> Scalar>(
    shade: S,
    m: Scalar,
    p: Scalar,
    out: Scalar,
) -> bool {
    exists|raw: Scalar| #[trigger] call_ensures(shade, (m, p), raw) && out == held(raw, m)
}

/// `out` is the mask with the foreground protected: what `shade` leaves of a mark
/// under its protection; without protection the marks themselves.
pub open spec fn protected_by<S: Fn(Scalar, Scalar) -> Scalar>(
    shade: S,
    enabled: bool,
    mask: Seq<bool>,
    protect: Seq<Scalar>,
    out: Seq<Scalar>,
) -> bool {
    &&& out.len() == mask.len()
    &&& forall|i: int|
        #![trigger out[i]]
        0 <= i < out.len() ==> if enabled {
            shaded(shade, mark_value(mask[i]), protection_at(protect, i), out[i])
        } else {
            out[i] == mark_value(mask[i])
        }
}

/// Protects the foreground in a mask.
pub fn apply_foreground_protect<S: Fn(Scalar, Scalar) -> Scalar>(
    mask: &[bool],
    protect: &[Scalar],
    enabled: bool,
    shade: &S,
) -> (out: Vec<Scalar>)
    requires
        forall|m: Scalar, p: Scalar| #[trigger] call_requires(*shade, (m, p)),
    ensures
        protected_by(*shade, enabled, mask@, protect@, out@),
{
    let zero = Scalar::new(0);
    let one = Scalar::new(ONE_BITS);
    let mut out: Vec<Scalar> = Vec::new();
    let mut i: usize = 0;
    while i < mask.len()
        invariant
            i <= mask@.len(),
            zero == (Scalar { bits: 0 }),
            one == (Scalar { bits: ONE_BITS }),
            forall|m: Scalar, p: Scalar| #[trigger] call_requires(*shade, (m, p)),
            out@.len() == i,
            forall|k: int|
                #![trigger out@[k]]
                0 <= k < i ==> if enabled {
                    shaded(*shade, mark_value(mask@[k]), protection_at(protect@, k), out@[k])
                } else {
                    out@[k] == mark_value(mask@[k])
                },
        decreases mask@.len() - i,
    {
        let m = if mask[i] {
            one
        } else {
            zero
        };
        let v = if enabled {
            let p = if i < protect.len() {
                protect[i]
            } else {
                zero
            };
            assert(call_requires(*shade, (m, p)));
            let raw = shade(m, p);
            let v = hold(raw, m);
            assert(shaded(*shade, m, p, v));
            v
        } else {
            m
        };
        out.push(v);
        i += 1;
    }
    out
}

/// `levels` holds the values in 8 bits.
pub open spec fn levelled<L: Fn(Scalar) -> u8>(level: L, data: Seq<Scalar>, levels: Seq<u8>) -> bool {
    &&& levels.len() == data.len()
    &&& forall|i: int|
        #![trigger levels[i]]
        0 <= i < levels.len() ==> call_ensures(level, (data[i],), levels[i])
}

fn level_all<L: Fn(Scalar) -> u8>(data: &Vec<Scalar>, level: &L) -> (levels: Vec<u8>)
    requires
        forall|v: Scalar| #[trigger] call_requires(*level, (v,)),
    ensures
        levelled(*level, data@, levels@),
{
    let mut levels: Vec<u8> = Vec::new();
    let mut i: usize = 0;
    while i < data.len()
        invariant
            i <= data@.len(),
            forall|v: Scalar| #[trigger] call_requires(*level, (v,)),
            levels@.len() == i,
            forall|k: int|
                #![trigger levels@[k]]
                0 <= k < i ==> call_ensures(*level, (data@[k],), levels@[k]),
        decreases data@.len() - i,
    {
        assert(call_requires(*level, (data@[i as int],)));
        levels.push(level(data[i]));
        i += 1;
    }
    levels
}

/// `out` is what `mix` makes of a mask's value and the foreground's, held to the
/// unit range.
pub open spec fn mixed<M: Fn(Scalar, Scalar) -> Scalar>(
    mix: M,
    m: Scalar,
    f: Scalar,
    out: Scalar,
) -> bool {
    exists|raw: Scalar| #[trigger] call_ensures(mix, (m, f), raw) && out == unit(raw)
}

/// `out` is the mask as a feature: the foreground alone where the mask is nearly
/// empty or nearly full, else what `mix` makes of both.
pub open spec fn mask_feature_of<M: Fn(Scalar, Scalar) -> Scalar>(
    mix: M,
    mean: Scalar,
    mask: Seq<Scalar>,
    foreground: Seq<Scalar>,
    out: Seq<Scalar>,
) -> bool {
    if mean.le(Scalar { bits: NEARLY_NONE_BITS }) || (Scalar { bits: NEARLY_ALL_BITS }).le(mean) {
        out == foreground
    } else {
        &&& out.len() == if mask.len() <= foreground.len() {
            mask.len()
        } else {
            foreground.len()
        }
        &&& forall|i: int|
            #![trigger out[i]]
            0 <= i < out.len() ==> mixed(mix, mask[i], foreground[i], out[i])
    }
}

/// `f` holds the features of a background mask: the mask is protected and blended
/// with the border's likelihood, and `foreground` makes a confidence of the blend,
/// which is held to the unit range.
pub open spec fn features_of_mask<
    S: Fn(Scalar, Scalar) -> Scalar,
    L: Fn(Scalar) -> u8,
    A: Fn(&Vec<Scalar>) -> Scalar,
    B: Fn(PartitionWeight, Scalar, Scalar) -> Scalar,
    F: Fn(&Vec<Scalar>) -> Vec<Scalar>,
    M: Fn(Scalar, Scalar) -> Scalar,
>(
    shade: S,
    level: L,
    average: A,
    blend: B,
    foreground: F,
    mix: M,
    mask: Seq<bool>,
    protect: Seq<Scalar>,
    protecting: bool,
    border: Seq<Scalar>,
    mean: Scalar,
    levels: Seq<u8>,
    soft: Vec<Scalar>,
    raw: Vec<Scalar>,
    f: BackgroundFeatures,
) -> bool {
    &&& protected_by(shade, protecting, mask, protect, f.protected@)
    &&& levelled(level, f.protected@, levels)
    &&& call_ensures(average, (&f.protected,), mean)
    &&& blended_masks(
        blend,
        mask_weight(level_kinds(levels), mean),
        f.protected@,
        border,
        soft@,
    )
    &&& call_ensures(foreground, (&soft,), raw)
    &&& f.foreground@ == units(raw@)
    &&& mask_feature_of(mix, mean, f.protected@, f.foreground@, f.mask_feature@)
}

/// Makes features of a background mask.
pub fn background_features<
    S: Fn(Scalar, Scalar) -> Scalar,
    L: Fn(Scalar) -> u8,
    A: Fn(&Vec<Scalar>) -> Scalar,
    B: Fn(PartitionWeight, Scalar, Scalar) -> Scalar,
    F: Fn(&Vec<Scalar>) -> Vec<Scalar>,
    M: Fn(Scalar, Scalar) -> Scalar,
>(
    mask: &[bool],
    protect: &[Scalar],
    protecting: bool,
    border: &[Scalar],
    shade: &S,
    level: &L,
    average: &A,
    blend: &B,
    foreground: &F,
    mix: &M,
) -> (f: BackgroundFeatures)
    requires
        forall|m: Scalar, p: Scalar| #[trigger] call_requires(*shade, (m, p)),
        forall|v: Scalar| #[trigger] call_requires(*level, (v,)),
        forall|v: &Vec<Scalar>| #[trigger] call_requires(*average, (v,)),
        forall|w: PartitionWeight, a: Scalar, b: Scalar| #[trigger] call_requires(*blend, (w, a, b)),
        forall|v: &Vec<Scalar>| #[trigger] call_requires(*foreground, (v,)),
        forall|a: Scalar, b: Scalar| #[trigger] call_requires(*mix, (a, b)),
    ensures
        exists|mean: Scalar, levels: Seq<u8>, soft: Vec<Scalar>, raw: Vec<Scalar>| #[trigger]
            features_of_mask(
                *shade,
                *level,
                *average,
                *blend,
                *foreground,
                *mix,
                mask@,
                protect@,
                protecting,
                border@,
                mean,
                levels,
                soft,
                raw,
                f,
            ),
{
    let protected = apply_foreground_protect(mask, protect, protecting, shade);
    let levels = level_all(&protected, level);
    assert(call_requires(*average, (&protected,)));
    let mean = average(&protected);
    assert(call_ensures(*average, (&protected,), mean));
    let soft = soft_background_from_partition(
        protected.as_slice(),
        levels.as_slice(),
        mean,
        border,
        blend,
    );
    assert(call_requires(*foreground, (&soft,)));
    let raw = foreground(&soft);
    assert(call_ensures(*foreground, (&soft,), raw));
    let fg = clamp_all(raw.as_slice());
    let none = Scalar::new(NEARLY_NONE_BITS);
    let all = Scalar::new(NEARLY_ALL_BITS);
    let mut mask_feature: Vec<Scalar> = Vec::new();
    if mean.at_most(&none) || all.at_most(&mean) {
        let mut i: usize = 0;
        while i < fg.len()
            invariant
                i <= fg@.len(),
                mask_feature@.len() == i,
                forall|k: int| #![trigger mask_feature@[k]] 0 <= k < i ==> mask_feature@[k] == fg@[k],
            decreases fg@.len() - i,
        {
            mask_feature.push(fg[i]);
            i += 1;
        }
        assert(mask_feature@ =~= fg@);
    } else {
        let n: usize = if protected.len() <= fg.len() {
            protected.len()
        } else {
            fg.len()
        };
        let mut i: usize = 0;
        while i < n
            invariant
                i <= n <= protected@.len(),
                n <= fg@.len(),
                forall|a: Scalar, b: Scalar| #[trigger] call_requires(*mix, (a, b)),
                mask_feature@.len() == i,
                forall|k: int|
                    #![trigger mask_feature@[k]]
                    0 <= k < i ==> mixed(*mix, protected@[k], fg@[k], mask_feature@[k]),
            decreases n - i,
        {
            assert(call_requires(*mix, (protected@[i as int], fg@[i as int])));
            let both = mix(protected[i], fg[i]);
            let v = clamp_unit(both);
            assert(mixed(*mix, protected@[i as int], fg@[i as int], v));
            mask_feature.push(v);
            i += 1;
        }
    }
    let f = BackgroundFeatures { protected, foreground: fg, mask_feature };
    assert(features_of_mask(
        *shade,
        *level,
        *average,
        *blend,
        *foreground,
        *mix,
        mask@,
        protect@,
        protecting,
        border@,
        mean,
        levels@,
        soft,
        raw,
        f,
    ));
    f
}

/// `shade` and `mix` give numbers, and `foreground` gives as many numbers as it
/// gets values.
pub open spec fn gives_numbers<
    S: Fn(Scalar, Scalar) -> Scalar,
    F: Fn(&Vec<Scalar>) -> Vec<Scalar>,
    M: Fn(Scalar, Scalar) -> Scalar,
>(shade: S, foreground: F, mix: M) -> bool {
    &&& forall|m: Scalar, p: Scalar, r: Scalar| #[trigger]
        call_ensures(shade, (m, p), r) ==> !r.is_nan()
    &&& forall|v: &Vec<Scalar>, r: Vec<Scalar>| #[trigger]
        call_ensures(foreground, (v,), r) ==> r@.len() == v@.len() && all_numbers(r@)
    &&& forall|m: Scalar, p: Scalar, r: Scalar| #[trigger]
        call_ensures(mix, (m, p), r) ==> !r.is_nan()
}

/// The features of a mask have a value in the unit range for every pixel, and
/// protecting the foreground only takes background away.
pub proof fn features_are_units<
    S: Fn(Scalar, Scalar) -> Scalar,
    L: Fn(Scalar) -> u8,
    A: Fn(&Vec<Scalar>) -> Scalar,
    B: Fn(PartitionWeight, Scalar, Scalar) -> Scalar,
    F: Fn(&Vec<Scalar>) -> Vec<Scalar>,
    M: Fn(Scalar, Scalar) -> Scalar,
>(
    shade: S,
    level: L,
    average: A,
    blend: B,
    foreground: F,
    mix: M,
    mask: Seq<bool>,
    protect: Seq<Scalar>,
    protecting: bool,
    border: Seq<Scalar>,
    mean: Scalar,
    levels: Seq<u8>,
    soft: Vec<Scalar>,
    raw: Vec<Scalar>,
    f: BackgroundFeatures,
)
    requires
        features_of_mask(
            shade,
            level,
            average,
            blend,
            foreground,
            mix,
            mask,
            protect,
            protecting,
            border,
            mean,
            levels,
            soft,
            raw,
            f,
        ),
        border.len() == mask.len(),
        gives_numbers(shade, foreground, mix),
    ensures
        f.protected@.len() == mask.len(),
        f.foreground@.len() == mask.len(),
        f.mask_feature@.len() == mask.len(),
        all_unit(f.protected@),
        all_unit(f.foreground@),
        all_unit(f.mask_feature@),
        forall|i: int|
            #![trigger f.protected@[i]]
            0 <= i < mask.len() ==> f.protected@[i].le(mark_value(mask[i])),
{
    assert forall|i: int| #![trigger f.protected@[i]] 0 <= i < mask.len() implies in_unit(
        f.protected@[i],
    ) && f.protected@[i].le(mark_value(mask[i])) by {
        if protecting {
            assert(shaded(shade, mark_value(mask[i]), protection_at(protect, i), f.protected@[i]));
        }
    }
    assert forall|i: int| #![trigger f.foreground@[i]] 0 <= i < mask.len() implies in_unit(
        f.foreground@[i],
    ) by {
        assert(!raw@[i].is_nan());
    }
    assert forall|i: int| #![trigger f.mask_feature@[i]] 0 <= i < mask.len() implies in_unit(
        f.mask_feature@[i],
    ) by {
        if f.mask_feature@ == f.foreground@ {
            assert(in_unit(f.foreground@[i]));
        } else {
            assert(mixed(mix, f.protected@[i], f.foreground@[i], f.mask_feature@[i]));
        }
    }
}

/// With a partition, the raw background of a pixel is the blend of its uncleaned
/// mask with its border likelihood, and its background is the inverse of its
/// foreground.
pub proof fn backgrounds_have_their_sources<
    B: Fn(PartitionWeight, Scalar, Scalar) -> Scalar,
    F: Fn(&Vec<Scalar>) -> Vec<Scalar>,
    I: Fn(Scalar) -> Scalar,
>(
    raw: HardMask,
    morph: HardMask,
    border: Seq<Scalar>,
    blend: B,
    foreground: F,
    invert: I,
    m: SoftMasks,
    i: int,
) -> (bg: Vec<Scalar>)
    requires
        refined(raw, morph, border, blend, foreground, invert, m),
        0 <= i,
    ensures
        i < raw.mask@.len() && i < border.len() ==> i < m.background_raw@.len() && exists|
            w: PartitionWeight,
        | #[trigger]
            call_ensures(blend, (w, raw.mask@[i], border[i]), m.background_raw@[i]),
        i < morph.mask@.len() && i < border.len() ==> i < bg@.len() && exists|w: PartitionWeight|
         #[trigger]
            call_ensures(blend, (w, morph.mask@[i], border[i]), bg@[i]),
        call_ensures(foreground, (&bg,), m.foreground),
        m.background@.len() == m.foreground@.len(),
        i < m.foreground@.len() ==> call_ensures(
            invert,
            (m.foreground@[i],),
            m.background@[i],
        ),
{
    let w = mask_weight(level_kinds(morph.levels@), morph.mean);
    let bg = choose|bg: Vec<Scalar>|
        {
            &&& blended_masks(blend, w, morph.mask@, border, bg@)
            &&& #[trigger] call_ensures(foreground, (&bg,), m.foreground)
        };
    if i < raw.mask@.len() && i < border.len() {
        let v = mask_weight(level_kinds(raw.levels@), raw.mean);
        assert(call_ensures(blend, (v, raw.mask@[i], border[i]), m.background_raw@[i]));
    }
    if i < morph.mask@.len() && i < border.len() {
        assert(call_ensures(blend, (w, morph.mask@[i], border[i]), bg@[i]));
    }
    bg
}

/// Without a partition, the foreground is made of the border likelihood alone,
/// and both backgrounds are its inverse.
pub proof fn border_alone_tells_foreground<
    F: Fn(&Vec<Scalar>) -> Vec<Scalar>,
    I: Fn(Scalar) -> Scalar,
>(border: Vec<Scalar>, foreground: F, invert: I, m: SoftMasks, i: int)
    requires
        unpartitioned(border, foreground, invert, m),
        0 <= i < m.foreground@.len(),
    ensures
        call_ensures(foreground, (&border,), m.foreground),
        m.background@.len() == m.foreground@.len(),
        m.background_raw@.len() == m.foreground@.len(),
        call_ensures(invert, (m.foreground@[i],), m.background@[i]),
        call_ensures(invert, (m.foreground@[i],), m.background_raw@[i]),
{
}

} // verus!
