//! Weights of the features, and how they follow the features' statistics.

use vstd::prelude::*;
use vstd::string::*;
use crate::quantile::{all_numbers, ascending, below, few_below_rank, ranked, value_at_rank};
use crate::scalar::{Scalar, ONE_BITS, SIGN_BIT};

verus! {

/// A weight for every feature.
#[derive(Clone, Copy, Debug, PartialEq, Eq, Structural)]
pub struct Weights {
    pub dct: Scalar,
    pub lab_grad: Scalar,
    pub spectral: Scalar,
    pub global_light: Scalar,
    pub global_lab_a: Scalar,
    pub global_lab_b: Scalar,
    pub global_sat: Scalar,
    pub local_light: Scalar,
    pub local_lab_a: Scalar,
    pub local_lab_b: Scalar,
    pub local_sat: Scalar,
    pub background_mask_morph: Scalar,
    pub background_fg_confidence: Scalar,
    pub subject_prior: Scalar,
    pub abs_light: Scalar,
    pub abs_lab_a: Scalar,
    pub abs_lab_b: Scalar,
    pub abs_sat: Scalar,
    pub segment_foreground: Scalar,
}

impl Weights {
    /// The weights in the order of the features.
    pub open spec fn listed(self) -> Seq<Scalar> {
        seq![
            self.dct,
            self.lab_grad,
            self.spectral,
            self.global_light,
            self.global_lab_a,
            self.global_lab_b,
            self.global_sat,
            self.local_light,
            self.local_lab_a,
            self.local_lab_b,
            self.local_sat,
            self.background_mask_morph,
            self.background_fg_confidence,
            self.subject_prior,
            self.abs_light,
            self.abs_lab_a,
            self.abs_lab_b,
            self.abs_sat,
            self.segment_foreground,
        ]
    }
}

/// Lists the weights in the order of the features.
pub fn weights_to_array(w: &Weights) -> (list: Vec<Scalar>)
    ensures
        list@ == w.listed(),
{
    let list: Vec<Scalar> = vec![
        w.dct,
        w.lab_grad,
        w.spectral,
        w.global_light,
        w.global_lab_a,
        w.global_lab_b,
        w.global_sat,
        w.local_light,
        w.local_lab_a,
        w.local_lab_b,
        w.local_sat,
        w.background_mask_morph,
        w.background_fg_confidence,
        w.subject_prior,
        w.abs_light,
        w.abs_lab_a,
        w.abs_lab_b,
        w.abs_sat,
        w.segment_foreground,
    ];
    assert(list@ =~= w.listed());
    list
}

/// Number of features whose weights can follow their statistics.
pub const DYNAMIC_FEATURES: usize = 19;

/// Names of the features whose weights can follow their statistics.
pub open spec fn dynamic_names() -> Seq<Seq<char>> {
    seq![
        "dct"@,
        "lab_grad"@,
        "spectral"@,
        "global_light"@,
        "global_lab_a"@,
        "global_lab_b"@,
        "global_sat"@,
        "local_light"@,
        "local_lab_a"@,
        "local_lab_b"@,
        "local_sat"@,
        "background_mask_morph"@,
        "background_fg_confidence"@,
        "subject_prior"@,
        "abs_light"@,
        "abs_lab_a"@,
        "abs_lab_b"@,
        "abs_sat"@,
        "segment_foreground"@,
    ]
}

/// The name of a feature.
pub fn dynamic_name(i: usize) -> (name: String)
    requires
        i < DYNAMIC_FEATURES,
    ensures
        name@ == dynamic_names()[i as int],
{
    let names = [
        "dct",
        "lab_grad",
        "spectral",
        "global_light",
        "global_lab_a",
        "global_lab_b",
        "global_sat",
        "local_light",
        "local_lab_a",
        "local_lab_b",
        "local_sat",
        "background_mask_morph",
        "background_fg_confidence",
        "subject_prior",
        "abs_light",
        "abs_lab_a",
        "abs_lab_b",
        "abs_sat",
        "segment_foreground",
    ];
    String::from_str(names[i])
}

/// Which features' weights follow their statistics.
#[derive(Clone, Copy, Debug, PartialEq, Eq, Structural)]
pub struct DynamicWeightsPerFeature {
    pub dct: bool,
    pub lab_grad: bool,
    pub spectral: bool,
    pub global_light: bool,
    pub global_lab_a: bool,
    pub global_lab_b: bool,
    pub global_sat: bool,
    pub local_light: bool,
    pub local_lab_a: bool,
    pub local_lab_b: bool,
    pub local_sat: bool,
    pub background_mask_morph: bool,
    pub background_fg_confidence: bool,
    pub subject_prior: bool,
    pub abs_light: bool,
    pub abs_lab_a: bool,
    pub abs_lab_b: bool,
    pub abs_sat: bool,
    pub segment_foreground: bool,
}

impl DynamicWeightsPerFeature {
    /// The switches in the order of the features.
    pub open spec fn listed(self) -> Seq<bool> {
        seq![
            self.dct,
            self.lab_grad,
            self.spectral,
            self.global_light,
            self.global_lab_a,
            self.global_lab_b,
            self.global_sat,
            self.local_light,
            self.local_lab_a,
            self.local_lab_b,
            self.local_sat,
            self.background_mask_morph,
            self.background_fg_confidence,
            self.subject_prior,
            self.abs_light,
            self.abs_lab_a,
            self.abs_lab_b,
            self.abs_sat,
            self.segment_foreground,
        ]
    }
}

/// Lists the switches in the order of the features.
pub fn per_feature_enabled(p: &DynamicWeightsPerFeature) -> (list: Vec<bool>)
    ensures
        list@ == p.listed(),
        list@.len() == DYNAMIC_FEATURES,
{
    let list: Vec<bool> = vec![
        p.dct,
        p.lab_grad,
        p.spectral,
        p.global_light,
        p.global_lab_a,
        p.global_lab_b,
        p.global_sat,
        p.local_light,
        p.local_lab_a,
        p.local_lab_b,
        p.local_sat,
        p.background_mask_morph,
        p.background_fg_confidence,
        p.subject_prior,
        p.abs_light,
        p.abs_lab_a,
        p.abs_lab_b,
        p.abs_sat,
        p.segment_foreground,
    ];
    assert(list@ =~= p.listed());
    list
}

/// Statistics of a feature map.
#[derive(Clone, Copy, Debug, PartialEq, Eq, Structural)]
pub struct FeatureStats {
    pub variance: Scalar,
    pub p5: Scalar,
    pub p95: Scalar,
    pub range: Scalar,
    pub mean: Scalar,
    pub peakiness: Scalar,
}

/// How a feature map's statistics are rated.
#[derive(Clone, Copy, Debug, PartialEq, Eq, Structural)]
pub struct FeatureScores {
    pub variance_score: Scalar,
    pub range_score: Scalar,
    pub peakiness_score: Scalar,
    pub stat_score: Scalar,
    pub multiplier: Scalar,
}

/// The weights of a feature, and how they came about.
#[derive(Clone, Copy, Debug, PartialEq, Eq, Structural)]
pub struct FeatureWeights {
    pub base_add_weight: Scalar,
    pub base_mul_weight: Scalar,
    pub stats: FeatureStats,
    pub scores: FeatureScores,
    pub dynamic_add_weight: Scalar,
    pub dynamic_mul_weight: Scalar,
}

/// A named feature's weights, and how they came about.
#[derive(Clone, Debug)]
pub struct FeatureDiagnostics {
    pub feature: String,
    pub weights: FeatureWeights,
}

/// The weights that follow the features' statistics.
#[derive(Clone, Debug)]
pub struct DynamicWeightsResult {
    pub add_weights: Vec<Scalar>,
    pub mul_weights: Vec<Scalar>,
    pub diagnostics: Vec<FeatureDiagnostics>,
}

/// The value is a zero of either sign.
pub open spec fn is_zero(v: Scalar) -> bool {
    v.bits == 0 || v.bits == SIGN_BIT
}

/// Statistics of which all are zero.
pub open spec fn no_stats() -> FeatureStats {
    let z = Scalar { bits: 0 };
    FeatureStats { variance: z, p5: z, p95: z, range: z, mean: z, peakiness: z }
}

/// Scores of which all are zero, with the given multiplier.
pub open spec fn no_scores(multiplier: Scalar) -> FeatureScores {
    let z = Scalar { bits: 0 };
    FeatureScores {
        variance_score: z,
        range_score: z,
        peakiness_score: z,
        stat_score: z,
        multiplier,
    }
}

fn blank_stats() -> (s: FeatureStats)
    ensures
        s == no_stats(),
{
    let z = Scalar::new(0);
    FeatureStats { variance: z, p5: z, p95: z, range: z, mean: z, peakiness: z }
}

fn blank_scores(multiplier: Scalar) -> (s: FeatureScores)
    ensures
        s == no_scores(multiplier),
{
    let z = Scalar::new(0);
    FeatureScores {
        variance_score: z,
        range_score: z,
        peakiness_score: z,
        stat_score: z,
        multiplier,
    }
}

/// `s` holds the statistics of a map: none without values, else what `measure`
/// gives for the map with its 5th and 95th percentile.
pub open spec fn stats_of<S: Fn(usize, Scalar, Scalar) -> FeatureStats>(
    measure: S,
    i: usize,
    data: Seq<Scalar>,
    s: FeatureStats,
) -> bool {
    if data.len() == 0 {
        s == no_stats()
    } else {
        exists|p5: Scalar, p95: Scalar|
            {
                &&& ranked(data, data.len() as int / 20, p5)
                &&& ranked(data, data.len() as int * 95 / 100, p95)
                &&& #[trigger] call_ensures(measure, (i, p5, p95), s)
            }
    }
}

/// `w` holds the weights of feature `i`.
///
/// A feature without weights stays without; a feature that is switched off keeps
/// its weights, multiplied by one; any other's are multiplied as its statistics
/// are rated.
pub open spec fn weighed<
    S: Fn(usize, Scalar, Scalar) -> FeatureStats,
    M: Fn(usize, &FeatureStats) -> FeatureScores,
    P: Fn(Scalar, Scalar) -> Scalar,
>(
    measure: S,
    rate: M,
    times: P,
    i: usize,
    data: Seq<Scalar>,
    enabled: bool,
    add_weight: Scalar,
    mul_weight: Scalar,
    w: FeatureWeights,
) -> bool {
    &&& w.base_add_weight == add_weight
    &&& w.base_mul_weight == mul_weight
    &&& if is_zero(add_weight) && is_zero(mul_weight) {
        &&& w.stats == no_stats()
        &&& w.scores == no_scores(Scalar { bits: 0 })
        &&& w.dynamic_add_weight.bits == 0
        &&& w.dynamic_mul_weight.bits == 0
    } else {
        &&& stats_of(measure, i, data, w.stats)
        &&& if enabled {
            call_ensures(rate, (i, &w.stats), w.scores)
        } else {
            w.scores == no_scores(Scalar { bits: ONE_BITS })
        }
        &&& call_ensures(times, (add_weight, w.scores.multiplier), w.dynamic_add_weight)
        &&& call_ensures(times, (mul_weight, w.scores.multiplier), w.dynamic_mul_weight)
    }
}

/// The rank of the 95th percentile.
fn rank_95(n: usize) -> (r: usize)
    requires
        n >= 1,
    ensures
        r as int == n as int * 95 / 100,
        r < n,
{
    let q = n / 20;
    let rest = n % 20;
    proof {
        let x = n as int * 95;
        assert(n == 20 * q + rest);
        assert(x == 100 * (19 * q) + 95 * rest);
        assert(x / 100 == 19 * q + (95 * rest) / 100);
        assert((95 * rest) / 100 == (19 * rest) / 20);
    }
    q * 19 + rest * 19 / 20
}

/// Weighs one feature.
fn weigh_feature<
    S: Fn(usize, Scalar, Scalar) -> FeatureStats,
    M: Fn(usize, &FeatureStats) -> FeatureScores,
    P: Fn(Scalar, Scalar) -> Scalar,
>(
    i: usize,
    data: &[Scalar],
    enabled: bool,
    add_weight: Scalar,
    mul_weight: Scalar,
    measure: &S,
    rate: &M,
    times: &P,
) -> (w: FeatureWeights)
    requires
        all_numbers(data@),
        forall|i: usize, a: Scalar, b: Scalar| #[trigger] call_requires(*measure, (i, a, b)),
        forall|i: usize, s: &FeatureStats| #[trigger] call_requires(*rate, (i, s)),
        forall|a: Scalar, b: Scalar| #[trigger] call_requires(*times, (a, b)),
    ensures
        weighed(*measure, *rate, *times, i, data@, enabled, add_weight, mul_weight, w),
{
    let idle = (add_weight.bits == 0 || add_weight.bits == SIGN_BIT) && (mul_weight.bits == 0
        || mul_weight.bits == SIGN_BIT);
    if idle {
        return FeatureWeights {
            base_add_weight: add_weight,
            base_mul_weight: mul_weight,
            stats: blank_stats(),
            scores: blank_scores(Scalar::new(0)),
            dynamic_add_weight: Scalar::new(0),
            dynamic_mul_weight: Scalar::new(0),
        };
    }
    let stats = if data.len() == 0 {
        blank_stats()
    } else {
        let p5 = value_at_rank(data, data.len() / 20);
        let p95 = value_at_rank(data, rank_95(data.len()));
        assert(call_requires(*measure, (i, p5, p95)));
        measure(i, p5, p95)
    };
    assert(stats_of(*measure, i, data@, stats));
    let scores = if enabled {
        assert(call_requires(*rate, (i, &stats)));
        rate(i, &stats)
    } else {
        blank_scores(Scalar::new(ONE_BITS))
    };
    assert(call_requires(*times, (add_weight, scores.multiplier)));
    let dynamic_add_weight = times(add_weight, scores.multiplier);
    assert(call_requires(*times, (mul_weight, scores.multiplier)));
    let dynamic_mul_weight = times(mul_weight, scores.multiplier);
    FeatureWeights {
        base_add_weight: add_weight,
        base_mul_weight: mul_weight,
        stats,
        scores,
        dynamic_add_weight,
        dynamic_mul_weight,
    }
}

/// Weights, switches and names list the features in one order.
pub proof fn features_have_one_order(w: Weights, p: DynamicWeightsPerFeature)
    ensures
        w.listed().len() == 19,
        p.listed().len() == 19,
        dynamic_names().len() == 19,
        w.listed()[0] == w.dct && p.listed()[0] == p.dct && dynamic_names()[0] == "dct"@,
        w.listed()[1] == w.lab_grad && p.listed()[1] == p.lab_grad && dynamic_names()[1] == "lab_grad"@,
        w.listed()[2] == w.spectral && p.listed()[2] == p.spectral && dynamic_names()[2] == "spectral"@,
        w.listed()[3] == w.global_light && p.listed()[3] == p.global_light && dynamic_names()[3] == "global_light"@,
        w.listed()[4] == w.global_lab_a && p.listed()[4] == p.global_lab_a && dynamic_names()[4] == "global_lab_a"@,
        w.listed()[5] == w.global_lab_b && p.listed()[5] == p.global_lab_b && dynamic_names()[5] == "global_lab_b"@,
        w.listed()[6] == w.global_sat && p.listed()[6] == p.global_sat && dynamic_names()[6] == "global_sat"@,
        w.listed()[7] == w.local_light && p.listed()[7] == p.local_light && dynamic_names()[7] == "local_light"@,
        w.listed()[8] == w.local_lab_a && p.listed()[8] == p.local_lab_a && dynamic_names()[8] == "local_lab_a"@,
        w.listed()[9] == w.local_lab_b && p.listed()[9] == p.local_lab_b && dynamic_names()[9] == "local_lab_b"@,
        w.listed()[10] == w.local_sat && p.listed()[10] == p.local_sat && dynamic_names()[10] == "local_sat"@,
        w.listed()[11] == w.background_mask_morph && p.listed()[11] == p.background_mask_morph && dynamic_names()[11] == "background_mask_morph"@,
        w.listed()[12] == w.background_fg_confidence && p.listed()[12] == p.background_fg_confidence && dynamic_names()[12] == "background_fg_confidence"@,
        w.listed()[13] == w.subject_prior && p.listed()[13] == p.subject_prior && dynamic_names()[13] == "subject_prior"@,
        w.listed()[14] == w.abs_light && p.listed()[14] == p.abs_light && dynamic_names()[14] == "abs_light"@,
        w.listed()[15] == w.abs_lab_a && p.listed()[15] == p.abs_lab_a && dynamic_names()[15] == "abs_lab_a"@,
        w.listed()[16] == w.abs_lab_b && p.listed()[16] == p.abs_lab_b && dynamic_names()[16] == "abs_lab_b"@,
        w.listed()[17] == w.abs_sat && p.listed()[17] == p.abs_sat && dynamic_names()[17] == "abs_sat"@,
        w.listed()[18] == w.segment_foreground && p.listed()[18] == p.segment_foreground && dynamic_names()[18] == "segment_foreground"@,
{
}

/// A feature with a weight is measured by its lower and upper twentieth: no more
/// than a twentieth of its values lie below the first, no more than nineteen below
/// the second.
pub proof fn features_are_measured_by_their_tails<S: Fn(usize, Scalar, Scalar) -> FeatureStats>(
    measure: S,
    i: usize,
    data: Seq<Scalar>,
    s: FeatureStats,
) -> (tails: (Scalar, Scalar))
    requires
        data.len() > 0,
        all_numbers(data),
        stats_of(measure, i, data, s),
    ensures
        call_ensures(measure, (i, tails.0, tails.1), s),
        tails.0.le(tails.1),
        20 * below(data, tails.0).len() <= data.len(),
        100 * below(data, tails.1).len() <= 95 * data.len(),
{
    let n = data.len() as int;
    let (a, b) = choose|a: Scalar, b: Scalar|
        {
            &&& ranked(data, n / 20, a)
            &&& ranked(data, n * 95 / 100, b)
            &&& #[trigger] call_ensures(measure, (i, a, b), s)
        };
    few_below_rank(data, n / 20, a);
    few_below_rank(data, n * 95 / 100, b);
    let p = choose|p: Seq<usize>| #[trigger] ascending(data, p) && a == data[p[n / 20] as int];
    let q = choose|q: Seq<usize>|
        #[trigger] ascending(data, q) && b == data[q[n * 95 / 100] as int];
    crate::order::order_unique(crate::quantile::ordinals(data), p, q);
    crate::quantile::ranks_ascend(data, p, n / 20, n * 95 / 100);
    (a, b)
}

/// A feature that is switched off keeps its weights but for a factor of one; one
/// that is switched on is weighed by its rating.
pub proof fn switches_decide_the_factor<
    S: Fn(usize, Scalar, Scalar) -> FeatureStats,
    M: Fn(usize, &FeatureStats) -> FeatureScores,
    P: Fn(Scalar, Scalar) -> Scalar,
>(
    measure: S,
    rate: M,
    times: P,
    i: usize,
    data: Seq<Scalar>,
    enabled: bool,
    add_weight: Scalar,
    mul_weight: Scalar,
    w: FeatureWeights,
)
    requires
        weighed(measure, rate, times, i, data, enabled, add_weight, mul_weight, w),
        add_weight.key() != 0 || mul_weight.key() != 0,
    ensures
        !enabled ==> call_ensures(
            times,
            (add_weight, Scalar { bits: 0x3FF0_0000_0000_0000 }),
            w.dynamic_add_weight,
        ) && call_ensures(
            times,
            (mul_weight, Scalar { bits: 0x3FF0_0000_0000_0000 }),
            w.dynamic_mul_weight,
        ),
        enabled ==> call_ensures(rate, (i, &w.stats), w.scores) && call_ensures(
            times,
            (add_weight, w.scores.multiplier),
            w.dynamic_add_weight,
        ) && call_ensures(times, (mul_weight, w.scores.multiplier), w.dynamic_mul_weight),
        w.base_add_weight == add_weight,
        w.base_mul_weight == mul_weight,
{
}

/// Weighs every feature: `measure` gives the statistics of a feature from its
/// number and its 5th and 95th percentile, `rate` rates the feature of a number by
/// them, and `times`
/// multiplies.
pub fn compute_dynamic_weights<
    S: Fn(usize, Scalar, Scalar) -> FeatureStats,
    M: Fn(usize, &FeatureStats) -> FeatureScores,
    P: Fn(Scalar, Scalar) -> Scalar,
>(
    features: &[&[Scalar]],
    base_add: &[Scalar],
    base_mul: &[Scalar],
    per_feature: &DynamicWeightsPerFeature,
    measure: &S,
    rate: &M,
    times: &P,
) -> (r: DynamicWeightsResult)
    requires
        features@.len() == DYNAMIC_FEATURES,
        base_add@.len() == DYNAMIC_FEATURES,
        base_mul@.len() == DYNAMIC_FEATURES,
        forall|i: int| #![trigger features@[i]] 0 <= i < features@.len() ==> all_numbers(features@[i]@),
        forall|i: usize, a: Scalar, b: Scalar| #[trigger] call_requires(*measure, (i, a, b)),
        forall|i: usize, s: &FeatureStats| #[trigger] call_requires(*rate, (i, s)),
        forall|a: Scalar, b: Scalar| #[trigger] call_requires(*times, (a, b)),
    ensures
        r.diagnostics@.len() == DYNAMIC_FEATURES,
        r.add_weights@.len() == DYNAMIC_FEATURES,
        r.mul_weights@.len() == DYNAMIC_FEATURES,
        forall|i: int|
            #![trigger r.diagnostics@[i]]
            0 <= i < DYNAMIC_FEATURES ==> {
                &&& r.diagnostics@[i].feature@ == dynamic_names()[i]
                &&& weighed(
                    *measure,
                    *rate,
                    *times,
                    i as usize,
                    features@[i]@,
                    per_feature.listed()[i],
                    base_add@[i],
                    base_mul@[i],
                    r.diagnostics@[i].weights,
                )
            },
        forall|i: int|
            #![trigger r.add_weights@[i]]
            0 <= i < DYNAMIC_FEATURES ==> r.add_weights@[i]
                == r.diagnostics@[i].weights.dynamic_add_weight,
        forall|i: int|
            #![trigger r.mul_weights@[i]]
            0 <= i < DYNAMIC_FEATURES ==> r.mul_weights@[i]
                == r.diagnostics@[i].weights.dynamic_mul_weight,
{
    let enabled = per_feature_enabled(per_feature);
    let mut add_weights: Vec<Scalar> = Vec::new();
    let mut mul_weights: Vec<Scalar> = Vec::new();
    let mut diagnostics: Vec<FeatureDiagnostics> = Vec::new();
    let mut i: usize = 0;
    while i < DYNAMIC_FEATURES
        invariant
            i <= DYNAMIC_FEATURES,
            features@.len() == DYNAMIC_FEATURES,
            base_add@.len() == DYNAMIC_FEATURES,
            base_mul@.len() == DYNAMIC_FEATURES,
            enabled@ == per_feature.listed(),
            enabled@.len() == DYNAMIC_FEATURES,
            forall|i: int|
                #![trigger features@[i]]
                0 <= i < features@.len() ==> all_numbers(features@[i]@),
            forall|i: usize, a: Scalar, b: Scalar| #[trigger] call_requires(*measure, (i, a, b)),
            forall|i: usize, s: &FeatureStats| #[trigger] call_requires(*rate, (i, s)),
            forall|a: Scalar, b: Scalar| #[trigger] call_requires(*times, (a, b)),
            diagnostics@.len() == i,
            add_weights@.len() == i,
            mul_weights@.len() == i,
            forall|k: int|
                #![trigger diagnostics@[k]]
                0 <= k < i ==> {
                    &&& diagnostics@[k].feature@ == dynamic_names()[k]
                    &&& weighed(
                        *measure,
                        *rate,
                        *times,
                        k as usize,
                        features@[k]@,
                        per_feature.listed()[k],
                        base_add@[k],
                        base_mul@[k],
                        diagnostics@[k].weights,
                    )
                },
            forall|k: int|
                #![trigger add_weights@[k]]
                0 <= k < i ==> add_weights@[k] == diagnostics@[k].weights.dynamic_add_weight,
            forall|k: int|
                #![trigger mul_weights@[k]]
                0 <= k < i ==> mul_weights@[k] == diagnostics@[k].weights.dynamic_mul_weight,
        decreases DYNAMIC_FEATURES - i,
    {
        assert(all_numbers(features@[i as int]@));
        let w = weigh_feature(
            i,
            features[i],
            enabled[i],
            base_add[i],
            base_mul[i],
            measure,
            rate,
            times,
        );
        add_weights.push(w.dynamic_add_weight);
        mul_weights.push(w.dynamic_mul_weight);
        diagnostics.push(FeatureDiagnostics { feature: dynamic_name(i), weights: w });
        i += 1;
    }
    DynamicWeightsResult { add_weights, mul_weights, diagnostics }
}

/// A feature without weights is never brought back, and one that is switched off
/// is multiplied by one.
pub proof fn idle_features_stay_idle<
    S: Fn(usize, Scalar, Scalar) -> FeatureStats,
    M: Fn(usize, &FeatureStats) -> FeatureScores,
    P: Fn(Scalar, Scalar) -> Scalar,
>(
    measure: S,
    rate: M,
    times: P,
    i: usize,
    data: Seq<Scalar>,
    enabled: bool,
    add_weight: Scalar,
    mul_weight: Scalar,
    w: FeatureWeights,
)
    requires
        weighed(measure, rate, times, i, data, enabled, add_weight, mul_weight, w),
    ensures
        is_zero(add_weight) && is_zero(mul_weight) ==> is_zero(w.dynamic_add_weight) && is_zero(
            w.dynamic_mul_weight,
        ),
        !enabled && !(is_zero(add_weight) && is_zero(mul_weight)) ==> w.scores.multiplier.bits
            == ONE_BITS,
        add_weight.key() == 0 && mul_weight.key() == 0 ==> w.dynamic_add_weight.bits == 0
            && w.dynamic_mul_weight.bits == 0 && w.scores.multiplier.bits == 0,
{
}

/// `n` copies of a character.
pub open spec fn run_of(c: char, n: int) -> Seq<char> {
    Seq::new(
        if n >= 0 {
            n as nat
        } else {
            0
        },
        |i: int| c,
    )
}

/// The text filled up with blanks on the left to `width` characters.
pub open spec fn right_aligned(s: Seq<char>, width: int) -> Seq<char> {
    run_of(' ', width - s.len()) + s
}

/// The text filled up with blanks on the right to `width` characters.
pub open spec fn left_aligned(s: Seq<char>, width: int) -> Seq<char> {
    s + run_of(' ', width - s.len())
}

fn push_run(out: &mut String, c: char, n: usize)
    ensures
        final(out)@ == old(out)@ + run_of(c, n as int),
{
    let ghost start = out@;
    let mut i: usize = 0;
    while i < n
        invariant
            i <= n,
            out@ == start + run_of(c, i as int),
        decreases n - i,
    {
        out.push(c);
        assert(out@ =~= start + run_of(c, i + 1));
        i += 1;
    }
    assert(out@ =~= start + run_of(c, n as int));
}

fn push_right_aligned(out: &mut String, s: &str, width: usize)
    ensures
        final(out)@ == old(out)@ + right_aligned(s@, width as int),
{
    let ghost start = out@;
    let len = s.unicode_len();
    if len < width {
        push_run(out, ' ', width - len);
    }
    out.append(s);
    assert(out@ =~= start + right_aligned(s@, width as int));
}

fn push_left_aligned(out: &mut String, s: &str, width: usize)
    ensures
        final(out)@ == old(out)@ + left_aligned(s@, width as int),
{
    let ghost start = out@;
    let len = s.unicode_len();
    out.append(s);
    if len < width {
        push_run(out, ' ', width - len);
    }
    assert(out@ =~= start + left_aligned(s@, width as int));
}

/// A row of a table: a name and cells, each behind a blank.
pub open spec fn row_text(name: Seq<char>, cells: Seq<Seq<char>>, k: int) -> Seq<char>
    decreases k,
{
    if k <= 0 {
        left_aligned(name, 28)
    } else {
        row_text(name, cells, k - 1) + seq![' '] + right_aligned(cells[k - 1], 7)
    }
}

/// The texts of strings.
pub open spec fn texts_of(s: Seq<String>) -> Seq<Seq<char>> {
    Seq::new(s.len(), |i: int| s[i]@)
}

fn push_row(out: &mut String, name: &str, cells: &Vec<String>)
    ensures
        final(out)@ == old(out)@ + row_text(name@, texts_of(cells@), cells@.len() as int),
{
    let ghost start = out@;
    push_left_aligned(out, name, 28);
    let mut i: usize = 0;
    while i < cells.len()
        invariant
            i <= cells@.len(),
            out@ == start + row_text(name@, texts_of(cells@), i as int),
        decreases cells@.len() - i,
    {
        let ghost before = row_text(name@, texts_of(cells@), i as int);
        out.push(' ');
        push_right_aligned(out, cells[i].as_str(), 7);
        assert(out@ =~= start + row_text(name@, texts_of(cells@), i + 1));
        i += 1;
    }
}

/// Titles of the columns.
pub open spec fn column_titles() -> Seq<Seq<char>> {
    seq![
        "BaseAdd"@,
        "BaseMul"@,
        "Var"@,
        "Range"@,
        "Peak"@,
        "Score"@,
        "Mult"@,
        "DynAdd"@,
        "DynMul"@,
    ]
}

/// The table of the first `k` rows: titles, a line, and the rows.
pub open spec fn table_text(rows: Seq<(String, Vec<String>)>, k: int) -> Seq<char>
    decreases k,
{
    if k <= 0 {
        row_text("Feature"@, column_titles(), 9) + seq!['\n'] + run_of('-', 100)
    } else {
        let row = rows[k - 1];
        table_text(rows, k - 1) + seq!['\n'] + row_text(
            row.0@,
            texts_of(row.1@),
            row.1@.len() as int,
        )
    }
}

/// Writes the table of the features; each row has the feature's name and its
/// numbers in digits.
pub fn diagnostics_to_table(rows: &Vec<(String, Vec<String>)>) -> (out: String)
    ensures
        out@ == table_text(rows@, rows@.len() as int),
{
    let mut out = String::new();
    let titles: Vec<String> = vec![
        String::from_str("BaseAdd"),
        String::from_str("BaseMul"),
        String::from_str("Var"),
        String::from_str("Range"),
        String::from_str("Peak"),
        String::from_str("Score"),
        String::from_str("Mult"),
        String::from_str("DynAdd"),
        String::from_str("DynMul"),
    ];
    assert(texts_of(titles@) =~= column_titles());
    push_row(&mut out, "Feature", &titles);
    out.push('\n');
    push_run(&mut out, '-', 100);
    assert(out@ =~= table_text(rows@, 0));
    let mut i: usize = 0;
    while i < rows.len()
        invariant
            i <= rows@.len(),
            out@ == table_text(rows@, i as int),
        decreases rows@.len() - i,
    {
        out.push('\n');
        push_row(&mut out, rows[i].0.as_str(), &rows[i].1);
        assert(out@ =~= table_text(rows@, i + 1));
        i += 1;
    }
    out
}

} // verus!
