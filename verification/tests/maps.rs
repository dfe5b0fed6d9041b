//! Maps of numbers: order, ranks, filters, weights, masks and regions.

use color_extract::blocks::{block_pixels, compute_complexity_map, transpose};
use color_extract::fusion::{
    apply_filter, composite_with_hybrid, composite_with_hybrid_direct, extent,
    percentile_normalize, percentile_normalize_unit_feature, post_normalize_filtered,
    unit_weights,
};
use color_extract::params::{
    validate_filter, ColorPartitionParams, DctParams, FilterError, FilterParams,
    ImpressionParams, MorphologyParams, SpectralResidualParams,
};
use color_extract::pipeline::{
    feature_names, fuse_features, map_file_names, region_color_or, sheet_names, small_names,
};
use color_extract::quantile::{
    median_bounds, median_value, percentile_ranks, sort_positions, value_at_rank,
};
use color_extract::region::Region;
use color_extract::residual::{level_residual, RankPair};
use color_extract::scalar::{clamp_unit, Scalar};
use color_extract::segfeat::{
    border_lab_center, build_boundary_map, build_region_id_map, compute_region_stats,
    compute_segment_features, labels_to_region_map, leading_regions, region_color_from_scores,
    Accum, FeatureError, RegionFeature,
};
use color_extract::segment::SegmentError;
use color_extract::softmask::{
    background_features, count_levels, nearest_prototype, soft_background_from_partition, soft_masks, weigh_mask,
    HardMask, PartitionWeight,
};
use color_extract::weights::{
    compute_dynamic_weights, diagnostics_to_table, dynamic_name, weights_to_array,
    DynamicWeightsPerFeature, FeatureScores, FeatureStats, Weights,
};

fn s(v: f64) -> Scalar {
    Scalar::new(v.to_bits())
}

fn f(v: Scalar) -> f64 {
    f64::from_bits(v.bits)
}

fn scalars(v: &[f64]) -> Vec<Scalar> {
    v.iter().map(|&x| s(x)).collect()
}

fn floats(v: &[Scalar]) -> Vec<f64> {
    v.iter().map(|&x| f(x)).collect()
}

#[test]
fn scalars_order_as_floats_do() {
    let values = [
        f64::NEG_INFINITY,
        -1e300,
        -1.5,
        -f64::MIN_POSITIVE,
        -0.0,
        0.0,
        5e-324,
        0.1,
        1.0,
        2.5,
        f64::MAX,
        f64::INFINITY,
        f64::NAN,
        -f64::NAN,
    ];
    for &a in &values {
        for &b in &values {
            assert_eq!(s(a).less(&s(b)), a < b, "{a} < {b}");
            assert_eq!(s(a).at_most(&s(b)), a <= b, "{a} <= {b}");
            if !a.is_nan() && !b.is_nan() {
                assert_eq!(s(a).sort_key() < s(b).sort_key(), a < b);
            }
        }
        assert_eq!(s(a).nan(), a.is_nan());
        if !a.is_nan() {
            assert_eq!(f(clamp_unit(s(a))), a.clamp(0.0, 1.0));
        }
    }
}

#[test]
fn ranks_and_medians() {
    let data = scalars(&[3.0, -1.0, 2.0, 2.0, 10.0]);
    assert_eq!(sort_positions(&data), vec![1, 2, 3, 0, 4]);
    assert_eq!(f(value_at_rank(&data, 0)), -1.0);
    assert_eq!(f(value_at_rank(&data, 99)), 10.0);
    assert_eq!(f(color_extract::quantile::robust_center(&data)), 2.0);
    assert_eq!(f(color_extract::quantile::robust_center(&[])), 0.0);
    assert_eq!(f(median_value(&data, &[0, 1, 4])), 3.0);
    let (a, b) = median_bounds(&data[..4]).unwrap();
    assert_eq!((f(a), f(b)), (2.0, 2.0));
    assert!(median_bounds(&[]).is_none());
    let ratio = |a: usize, b: usize| s(a as f64 / b as f64);
    assert_eq!(
        floats(&percentile_ranks(&data, &ratio)),
        vec![0.75, 0.0, 0.25, 0.5, 1.0]
    );
    assert_eq!(floats(&percentile_ranks(&data[..1], &ratio)), vec![0.5]);
    assert!(percentile_ranks(&[], &ratio).is_empty());
}

fn stretch(lo: Scalar, hi: Scalar, v: Scalar) -> Scalar {
    let range = (f(hi) - f(lo)).max(1e-12);
    s(((f(v) - f(lo)) / range).clamp(0.0, 1.0))
}

fn flat(lo: Scalar, hi: Scalar) -> bool {
    (f(hi) - f(lo)).abs() < 1e-12
}

#[test]
fn maps_are_normalised_between_ranks() {
    let data = scalars(&[0.0, 5.0, 10.0, 100.0]);
    assert_eq!(
        floats(&percentile_normalize(&data, 0, 2, &stretch)),
        vec![0.0, 0.5, 1.0, 1.0]
    );
    assert!(percentile_normalize(&[], 0, 2, &stretch).is_empty());
}

#[test]
fn constant_probabilities_are_kept() {
    let ones = scalars(&[1.0, 1.0, 1.0]);
    assert_eq!(
        floats(&percentile_normalize(&ones, 0, 2, &stretch)),
        vec![0.0; 3]
    );
    assert_eq!(
        floats(&percentile_normalize_unit_feature(&ones, 0, 2, &flat, &stretch)),
        vec![1.0; 3]
    );
    let slack = scalars(&[-5e-10, -5e-10]);
    assert_eq!(
        floats(&percentile_normalize_unit_feature(&slack, 0, 1, &flat, &stretch)),
        vec![0.0; 2]
    );
    let fives = scalars(&[5.0, 5.0]);
    assert_eq!(
        floats(&percentile_normalize_unit_feature(&fives, 0, 1, &flat, &stretch)),
        vec![0.0; 2]
    );
    let spread = scalars(&[0.2, 0.4]);
    assert_eq!(
        floats(&percentile_normalize_unit_feature(&spread, 0, 1, &flat, &stretch)),
        vec![0.0, 1.0]
    );
}

fn filter(method: &str, threshold: Option<f64>, quantile: Option<f64>) -> FilterParams {
    FilterParams {
        method: method.to_string(),
        threshold: threshold.map(s),
        normalize_before: None,
        quantile: quantile.map(s),
    }
}

#[test]
fn filters_are_validated() {
    assert_eq!(validate_filter(&filter("threshold", Some(0.5), None)), Ok(()));
    assert_eq!(validate_filter(&filter("quantile", None, Some(100.0))), Ok(()));
    assert_eq!(
        validate_filter(&filter("threshold", Some(0.5), Some(1.0))),
        Err(FilterError::QuantileConflict)
    );
    assert_eq!(
        validate_filter(&filter("threshold", None, None)),
        Err(FilterError::ThresholdMissing)
    );
    assert_eq!(
        validate_filter(&filter("threshold", Some(1.01), None)),
        Err(FilterError::ThresholdRange)
    );
    assert_eq!(
        validate_filter(&filter("threshold", Some(f64::NAN), None)),
        Err(FilterError::ThresholdRange)
    );
    assert_eq!(
        validate_filter(&filter("quantile", Some(0.5), Some(5.0))),
        Err(FilterError::ThresholdConflict)
    );
    assert_eq!(
        validate_filter(&filter("quantile", None, None)),
        Err(FilterError::QuantileMissing)
    );
    assert_eq!(
        validate_filter(&filter("quantile", None, Some(0.0))),
        Err(FilterError::QuantileRange)
    );
    assert_eq!(
        validate_filter(&filter("other", None, None)),
        Err(FilterError::UnknownMethod)
    );
}

fn rank(q: Scalar, n: usize) -> usize {
    ((1.0 - f(q) / 100.0) * n as f64).floor() as usize
}

fn lift(lo: Scalar, hi: Scalar, v: Scalar) -> Scalar {
    s(0.2 + (f(v) - f(lo)) / (f(hi) - f(lo)) * 0.8)
}

#[test]
fn filters_keep_what_is_bright() {
    let data = scalars(&[0.1, 0.5, 0.4, 0.9]);
    let run = |p: &FilterParams, post: bool| {
        floats(&apply_filter(&data, p, &rank, &stretch, post, &flat, &lift))
    };
    assert_eq!(
        run(&filter("threshold", Some(0.5), None), false),
        vec![0.0, 0.5, 0.0, 0.9]
    );
    let mut p = filter("threshold", Some(0.5), None);
    p.normalize_before = Some(true);
    assert_eq!(run(&p, false), vec![0.0, 0.5, 0.0, 0.9]);
    p.threshold = Some(s(0.51));
    assert_eq!(run(&p, false), vec![0.0, 0.0, 0.0, 0.9]);
    assert_eq!(
        run(&filter("quantile", None, Some(75.0)), false),
        vec![0.0, 0.5, 0.4, 0.9]
    );
    let post = run(&filter("threshold", Some(0.4), None), true);
    assert_eq!(post[0], 0.0);
    assert_eq!(post[2], 0.2);
    assert_eq!(post[3], 1.0);
    assert_eq!(
        run(&filter("threshold", Some(0.9), None), true),
        vec![0.0, 0.0, 0.0, 1.0]
    );
    assert_eq!(
        run(&filter("threshold", Some(1.0), None), true),
        vec![0.0; 4]
    );
    assert!(apply_filter(
        &[],
        &filter("threshold", Some(0.5), None),
        &rank,
        &stretch,
        true,
        &flat,
        &lift
    )
    .is_empty());
    let kept = post_normalize_filtered(&scalars(&[0.0, 0.3]), &flat, &lift);
    assert_eq!(floats(&kept), vec![0.0, 1.0]);
}

#[test]
fn extents_ignore_what_is_no_number() {
    let (lo, hi) = extent(&scalars(&[2.0, f64::NAN, -3.0]));
    assert_eq!((f(lo), f(hi)), (-3.0, 2.0));
    let (lo, hi) = extent(&[]);
    assert_eq!((f(lo), f(hi)), (f64::MAX, f64::NEG_INFINITY));
}

#[test]
fn pixels_are_scaled_by_maps() {
    let rgb = vec![[s(1.0), s(0.5), s(0.25)]; 3];
    let scale = |p: [Scalar; 3], w: Scalar| p.map(|c| s(f(c) * f(w)));
    let out = composite_with_hybrid(&rgb, &scalars(&[0.0, 0.5]), &scale);
    assert_eq!(out.len(), 2);
    assert_eq!(f(out[1][1]), 0.25);
    let map = scalars(&[2.0, 4.0, 6.0]);
    let out = composite_with_hybrid_direct(&rgb, &map, true, &stretch, &scale);
    assert_eq!(floats(&out.iter().map(|p| p[0]).collect::<Vec<_>>()), vec![0.0, 0.5, 1.0]);
    let out = composite_with_hybrid_direct(&rgb, &map, false, &stretch, &scale);
    assert!(out.iter().all(|p| f(p[0]) == 1.0));
    assert_eq!(floats(&unit_weights(&map, true, &stretch)), vec![0.0, 0.5, 1.0]);
}

#[test]
fn residuals_are_differences() {
    assert_eq!(level_residual(&[10, 20, 30], &[12, 20, 25]), vec![2, 0, 5]);
}

#[test]
fn outliers_are_trimmed() {
    let data = scalars(&[1.0, 2.0, 3.0, 4.0, 1000.0]);
    let mix = |r: RankPair, a: Scalar, b: Scalar| {
        s(f(a) * (1.0 - f(r.fraction)) + f(b) * f(r.fraction))
    };
    let mean = |v: &Vec<Scalar>| s(v.iter().map(|&x| f(x)).sum::<f64>() / v.len() as f64);
    let blend = |m: Scalar, median: Scalar| s(0.5 * f(m) + 0.5 * f(median));
    let low = RankPair { lo: 0, hi: 0, fraction: s(0.0) };
    let high = RankPair { lo: 3, hi: 3, fraction: s(0.0) };
    let c = color_extract::residual::robust_center(&data, low, high, &mix, &mean, &blend);
    assert_eq!(f(c), 0.5 * 2.5 + 0.5 * 3.0);
    let between = RankPair { lo: 3, hi: 4, fraction: s(0.5) };
    let c = color_extract::residual::robust_center(&data, low, between, &mix, &mean, &blend);
    assert_eq!(f(c), 0.5 * 2.5 + 0.5 * 3.0);
    let below = RankPair { lo: 2, hi: 3, fraction: s(0.25) };
    let c = color_extract::residual::robust_center(&data, low, below, &mix, &mean, &blend);
    assert_eq!(f(c), 0.5 * 2.0 + 0.5 * 3.0);
    let none = color_extract::residual::robust_center(&[], low, high, &mix, &mean, &blend);
    assert_eq!(f(none), 0.0);
    let crossed = color_extract::residual::robust_center(&data, high, low, &mix, &mean, &blend);
    assert_eq!(f(crossed), 3.0);
}

#[test]
fn blocks_repeat_the_edge() {
    let block = block_pixels(10, 10, 55);
    assert_eq!(block.len(), 64);
    assert_eq!(block[36], 55);
    assert_eq!(block[0], 11);
    assert_eq!(block[63], 88);
    assert_eq!(block_pixels(10, 10, 0)[0], 0);
    assert_eq!(block_pixels(10, 10, 99)[63], 99);
    let map = compute_complexity_map(3, 2, &|b: &Vec<usize>| s(b.iter().sum::<usize>() as f64));
    assert_eq!(map.len(), 6);
    let want: usize = block_pixels(3, 2, 4).iter().sum();
    assert_eq!(f(map[4]), want as f64);
    let m: Vec<Scalar> = (0..64).map(|i| s(i as f64)).collect();
    let t = transpose(&m);
    assert_eq!(f(t[1]), 8.0);
    assert_eq!(transpose(&t), m);
}

fn weights(v: f64) -> Weights {
    Weights {
        dct: s(v),
        lab_grad: s(v + 1.0),
        spectral: s(0.0),
        global_light: s(0.0),
        global_lab_a: s(0.0),
        global_lab_b: s(0.0),
        global_sat: s(0.0),
        local_light: s(0.0),
        local_lab_a: s(0.0),
        local_lab_b: s(0.0),
        local_sat: s(0.0),
        background_mask_morph: s(0.0),
        background_fg_confidence: s(0.0),
        subject_prior: s(0.0),
        abs_light: s(0.0),
        abs_lab_a: s(0.0),
        abs_lab_b: s(0.0),
        abs_sat: s(0.0),
        segment_foreground: s(9.0),
    }
}

#[test]
fn weights_are_listed_in_order() {
    let list = weights_to_array(&weights(1.0));
    assert_eq!(list.len(), 19);
    assert_eq!(f(list[0]), 1.0);
    assert_eq!(f(list[1]), 2.0);
    assert_eq!(f(list[18]), 9.0);
    assert_eq!(dynamic_name(0), "dct");
    assert_eq!(dynamic_name(13), "subject_prior");
}

fn switches(dct: bool) -> DynamicWeightsPerFeature {
    DynamicWeightsPerFeature {
        dct,
        lab_grad: true,
        spectral: true,
        global_light: true,
        global_lab_a: true,
        global_lab_b: true,
        global_sat: true,
        local_light: true,
        local_lab_a: true,
        local_lab_b: true,
        local_sat: true,
        background_mask_morph: true,
        background_fg_confidence: true,
        subject_prior: true,
        abs_light: true,
        abs_lab_a: true,
        abs_lab_b: true,
        abs_sat: true,
        segment_foreground: true,
    }
}

#[test]
fn dynamic_weights_follow_the_statistics() {
    let map: Vec<Scalar> = (0..100).map(|i| s(i as f64 / 100.0)).collect();
    let features: Vec<&[Scalar]> = (0..19).map(|_| map.as_slice()).collect();
    let mut add = scalars(&[0.0; 19]);
    add[18] = s(1.0);
    add[0] = s(2.0);
    add[1] = s(3.0);
    add[2] = s(-0.0);
    let mul = scalars(&[0.0; 19]);
    let measure = |_: usize, p5: Scalar, p95: Scalar| FeatureStats {
        variance: s(0.0),
        p5,
        p95,
        range: s(f(p95) - f(p5)),
        mean: s(0.5),
        peakiness: s(0.0),
    };
    let rate = |i: usize, st: &FeatureStats| FeatureScores {
        variance_score: s(0.0),
        range_score: st.range,
        peakiness_score: s(0.0),
        stat_score: s(0.0),
        multiplier: s(if i == 18 { 5.0 } else { 4.0 }),
    };
    let times = |a: Scalar, b: Scalar| s(f(a) * f(b));
    let r = compute_dynamic_weights(
        &features,
        &add,
        &mul,
        &switches(false),
        &measure,
        &rate,
        &times,
    );
    assert_eq!(f(r.add_weights[0]), 2.0);
    assert_eq!(f(r.diagnostics[0].weights.scores.multiplier), 1.0);
    assert_eq!(f(r.add_weights[1]), 12.0);
    assert_eq!(f(r.diagnostics[1].weights.stats.p5), 0.05);
    assert_eq!(f(r.diagnostics[1].weights.stats.p95), 0.95);
    assert_eq!(f(r.add_weights[2]), 0.0);
    assert_eq!(f(r.diagnostics[2].weights.scores.multiplier), 0.0);
    assert_eq!(r.diagnostics[2].feature, "spectral");
    assert_eq!(r.diagnostics[18].feature, "segment_foreground");
    assert_eq!(f(r.add_weights[18]), 5.0);
    assert_eq!(f(r.mul_weights[1]), 0.0);
}

#[test]
fn tables_are_aligned() {
    let cells: Vec<String> = (0..9).map(|i| format!("{i}.5000")).collect();
    let table = diagnostics_to_table(&vec![("dct".to_string(), cells)]);
    let lines: Vec<&str> = table.split('\n').collect();
    assert_eq!(lines.len(), 3);
    assert_eq!(
        lines[0],
        format!(
            "{:<28} {:>7} {:>7} {:>7} {:>7} {:>7} {:>7} {:>7} {:>7} {:>7}",
            "Feature", "BaseAdd", "BaseMul", "Var", "Range", "Peak", "Score", "Mult", "DynAdd",
            "DynMul"
        )
    );
    assert_eq!(lines[1], "-".repeat(100));
    assert!(lines[2].starts_with("dct                           0.5000  1.5000"));
    assert_eq!(lines[2].len(), 100);
}

#[test]
fn masks_count_by_their_levels() {
    assert_eq!(count_levels(&[]), 0);
    assert_eq!(count_levels(&[5, 5, 5]), 1);
    assert_eq!(count_levels(&[0, 255, 0]), 2);
    assert_eq!(count_levels(&[0, 1, 2, 3, 4]), 3);
    assert_eq!(weigh_mask(2, s(0.01)), PartitionWeight::Ignored);
    assert_eq!(weigh_mask(2, s(0.98)), PartitionWeight::Ignored);
    assert_eq!(weigh_mask(2, s(0.5)), PartitionWeight::Hard);
    assert_eq!(weigh_mask(3, s(0.01)), PartitionWeight::Soft);
}

fn blend(w: PartitionWeight, m: Scalar, b: Scalar) -> Scalar {
    let k = match w {
        PartitionWeight::Ignored => 0.0,
        PartitionWeight::Hard => 0.5,
        PartitionWeight::Soft => 0.75,
    };
    s(f(m) * k + f(b) * (1.0 - k))
}

#[test]
fn soft_masks_blend_partition_and_border() {
    let mask = scalars(&[0.0, 1.0]);
    let border = scalars(&[0.5, 0.5]);
    let out = soft_background_from_partition(&mask, &[0, 255], s(0.5), &border, &blend);
    assert_eq!(floats(&out), vec![0.25, 0.75]);
    let hard = HardMask {
        mask: &mask,
        levels: &[0, 255],
        mean: s(0.5),
    };
    let foreground = |bg: &Vec<Scalar>| bg.iter().map(|&v| s(1.0 - f(v) * 0.5)).collect::<Vec<_>>();
    let invert = |v: Scalar| s(1.0 - f(v));
    let m = soft_masks(true, &hard, &hard, &border, &blend, &foreground, &invert);
    assert_eq!(floats(&m.background_raw), vec![0.25, 0.75]);
    assert_eq!(floats(&m.foreground), vec![0.875, 0.625]);
    assert_eq!(floats(&m.background), vec![0.125, 0.375]);
    let m = soft_masks(false, &hard, &hard, &border, &blend, &foreground, &invert);
    assert_eq!(floats(&m.foreground), vec![0.75, 0.75]);
    assert_eq!(floats(&m.background_raw), vec![0.25, 0.25]);
    let distance = |i: usize, p: usize| s((i as f64 - p as f64).abs());
    assert_eq!(f(nearest_prototype(4, &[0, 6, 9], &distance)), 2.0);
    assert_eq!(f(nearest_prototype(4, &[], &distance)), f64::MAX);
}

#[test]
fn masks_become_features() {
    let run = |mask: &[bool], protecting: bool| {
        background_features(
            mask,
            &scalars(&[0.5]),
            protecting,
            &scalars(&[0.5, 0.5]),
            &|m: Scalar, p: Scalar| s(f(m) * (1.0 - f(p))),
            &|v: Scalar| (f(v) * 255.0).round() as u8,
            &|v: &Vec<Scalar>| s(v.iter().map(|&x| f(x)).sum::<f64>() / v.len() as f64),
            &blend,
            &|bg: &Vec<Scalar>| bg.iter().map(|&v| s(1.0 - f(v))).collect::<Vec<_>>(),
            &|m: Scalar, g: Scalar| s((1.0 - f(m)) * 0.2 + f(g) * 0.8),
        )
    };
    let r = run(&[true, false], false);
    assert_eq!(floats(&r.protected), vec![1.0, 0.0]);
    assert_eq!(floats(&r.foreground), vec![0.25, 0.75]);
    assert_eq!(floats(&r.mask_feature), vec![0.2, 0.2 + 0.75 * 0.8]);
    let r = run(&[true, true], true);
    assert_eq!(floats(&r.protected), vec![0.5, 1.0]);
    let r = run(&[true, true], false);
    assert_eq!(floats(&r.mask_feature), floats(&r.foreground));
    assert_eq!(floats(&r.foreground), vec![0.5, 0.5]);
}

fn feature(id: usize, score: f64) -> RegionFeature {
    let z = s(0.0);
    RegionFeature {
        id,
        cluster_id: id,
        area: 1,
        area_ratio: z,
        border_ratio: z,
        center_prior: z,
        saliency_mean: z,
        saliency_peak: z,
        edge_mean: z,
        border_color_similarity: z,
        color_stability: z,
        bg_probability: s(2.0 * id as f64),
        subject_confidence: s(0.25),
        color_score: s(score),
        mean_rgb: [s(id as f64); 3],
    }
}

#[test]
fn regions_lead_by_score() {
    let regions = vec![
        feature(0, 0.5),
        feature(1, 0.0),
        feature(2, 0.9),
        feature(3, 0.5),
        feature(4, f64::NAN),
    ];
    assert_eq!(leading_regions(&regions, 2), vec![2, 0]);
    assert_eq!(leading_regions(&regions, 0), vec![2]);
    assert_eq!(leading_regions(&regions, 9), vec![2, 0, 3]);
    let mix = |r: &Vec<RegionFeature>, at: &Vec<usize>| {
        let sum: f64 = at.iter().map(|&i| f(r[i].color_score)).sum();
        ([s(at.len() as f64); 3], s(sum))
    };
    let c = region_color_from_scores(&regions, 2, &mix);
    assert_eq!(c.contributing_regions, vec![2, 0]);
    assert_eq!(f(c.score), 1.4);
}

#[test]
fn regions_are_spread_over_their_pixels() {
    let labels = vec![Some(0), Some(1), None, Some(9)];
    let regions = vec![feature(0, 0.0), feature(1, 0.0)];
    let map = labels_to_region_map(&labels, &regions, &|r: &RegionFeature| r.bg_probability);
    assert_eq!(floats(&map), vec![0.0, 1.0, 0.0, 0.0]);
    let ratio = |a: usize, b: usize| s(a as f64 / b as f64);
    assert_eq!(
        floats(&build_region_id_map(&labels, 3, &ratio)),
        vec![0.0, 0.5, 0.0, 4.5]
    );
    assert_eq!(floats(&build_region_id_map(&labels, 1, &ratio)), vec![0.0; 4]);
    let edges = scalars(&[1.0, 0.0, 0.5, 0.0]);
    let damp = |v: Scalar| s(f(v) * 0.65);
    let same = vec![Some(0), Some(0), None, None];
    assert_eq!(
        floats(&build_boundary_map(&same, &edges, 4, 1, &damp)),
        vec![0.65, 1.0, 1.0, 0.0]
    );
}

#[test]
fn region_sums_count_the_border() {
    let labels: Vec<Option<usize>> = (0..25).map(|i| Some(if i == 12 { 1 } else { 0 })).collect();
    let sums = compute_region_stats(
        &labels,
        &[s(7.0); 20],
        5,
        5,
        2,
        0,
        0usize,
        &|a: usize, i: usize, b: bool, e: Scalar| {
            a + i + if b { 1000 } else { 0 } + f(e) as usize * 100000
        },
    );
    assert_eq!(sums[1].count, 1);
    assert_eq!(sums[1].border_count, 0);
    assert_eq!(sums[1].sums, 700012);
    assert_eq!(sums[0].sums / 100000, 19 * 7);
    assert_eq!(sums[0].count, 24);
    assert_eq!(sums[0].border_count, 16);
}

#[test]
fn the_border_has_a_median_colour() {
    let l = scalars(&[1.0, 2.0, 3.0, 4.0, 99.0, 6.0, 7.0, 8.0, 9.0]);
    let c = border_lab_center(&l, &l, &l, 3, 3, 1);
    assert_eq!(f(c[0]), 6.0);
    let none = border_lab_center(&[], &[], &[], 0, 0, 1);
    assert_eq!(f(none[2]), 0.0);
}

#[test]
fn segments_are_described() {
    let grow = color_extract::anime::GrowLimits {
        strong_sq: 1000,
        y_limit: 30,
        chroma_limit: 100,
        link_sq: 500,
        edge_wall: s(0.5),
    };
    let merge = color_extract::anime_merge::MergeLimits {
        edge_merge: s(0.0),
        color_merge: s(1.0),
        edge_guard: s(0.0),
        edge_split: s(0.4),
        small_color: s(1.0),
        merge_small_regions: false,
        min_region_area: 1,
        ratio_area: 0,
    };
    let run = |pixels: &[[u8; 3]], w: u32, h: u32| {
        compute_segment_features(
            pixels,
            w,
            h,
            &grow,
            &merge,
            &|p: [u8; 3]| p[0],
            &|_: color_extract::edge::Around<u8>| s(0.0),
            &|_: Scalar, _: Scalar| s(0.0),
            &|_: Scalar, _: Scalar| s(0.0),
            &|_: &Vec<color_extract::segment::Contact>,
              _: &color_extract::anime::RegionStats,
              _: &color_extract::anime::RegionStats| {
                color_extract::anime_merge::PairMeasure {
                    edge: s(1.0),
                    color: s(100.0),
                    region_color: s(100.0),
                    score_a: s(0.0),
                    score_b: s(0.0),
                }
            },
            vec![s(0.5); pixels.len()],
            1,
            1,
            0usize,
            &|a: usize, _: usize, _: bool, _: Scalar| a + 1,
            &|r: &Region, a: &Accum<usize>, area: usize| RegionFeature {
                area,
                color_score: s(0.0),
                bg_probability: s(a.border_count as f64 / area as f64),
                ..feature(r.id, 0.0)
            },
            &|r: &RegionFeature| s(r.area as f64),
            &|a: usize, b: usize| s(a as f64 / b as f64),
            &|v: Scalar| s(f(v) * 0.5),
            &|r: &Vec<RegionFeature>, at: &Vec<usize>| (r[at[0]].mean_rgb, r[at[0]].color_score),
        )
    };
    let pixels = [[0u8; 3], [0; 3], [200; 3], [0; 3], [0; 3], [200; 3]];
    let r = run(&pixels, 3, 2).unwrap();
    assert_eq!(r.labels[2], Some(1));
    assert_eq!(r.regions.len(), 2);
    assert_eq!(f(r.regions[0].color_score), 4.0);
    assert_eq!(r.region_color.contributing_regions, vec![0]);
    assert_eq!(floats(&r.bg_probability), vec![1.0; 6]);
    assert_eq!(floats(&r.boundary_map), vec![0.5, 1.0, 1.0, 0.5, 1.0, 1.0]);
    assert_eq!(floats(&r.saliency), vec![0.5; 6]);
    assert_eq!(run(&pixels, 2, 2).unwrap_err(), FeatureError::PixelCount);
    assert_eq!(
        run(&[], 0, 0).unwrap_err(),
        FeatureError::Segmentation(SegmentError::EmptyImage)
    );
}

#[test]
fn maps_are_fused_and_filtered() {
    let add = weights(1.0);
    let mul = weights(2.0);
    let weigh = |a: &Vec<Scalar>, m: &Vec<Scalar>| {
        (vec![s(f(a[0]) * 10.0)], vec![s(f(m[0]) * 10.0)])
    };
    let fuse = |a: &Vec<Scalar>, m: &Vec<Scalar>| (vec![a[0]], vec![m[0]], vec![s(0.5)]);
    let keep = |m: &Vec<Scalar>| m.iter().map(|&v| s(f(v) + 0.25)).collect::<Vec<_>>();
    let r = fuse_features(&add, &mul, false, false, &weigh, &fuse, &keep);
    assert_eq!(floats(&r.add), vec![1.0]);
    assert_eq!(floats(&r.mul_filtered), vec![2.0]);
    let r = fuse_features(&add, &mul, true, true, &weigh, &fuse, &keep);
    assert_eq!(floats(&r.add), vec![10.0]);
    assert_eq!(floats(&r.add_filtered), vec![10.25]);
    assert_eq!(floats(&r.hybrid_filtered), vec![0.75]);
}

#[test]
fn maps_have_names_and_an_order() {
    assert_eq!(feature_names().len(), 19);
    assert_eq!(sheet_names(false).len(), 25);
    assert_eq!(sheet_names(true).len(), 30);
    assert_eq!(sheet_names(true)[29], "segment_subject_confidence");
    assert_eq!(small_names()[7], "fused");
    let plain = map_file_names(false, false);
    assert_eq!(plain[11], "subject_prior");
    assert_eq!(plain[12], "background_mask_morph");
    assert_eq!(plain.last().unwrap(), "fused_hybrid");
    let all = map_file_names(true, true);
    assert_eq!(all[12], "segment_region_id");
    assert_eq!(all[17], "segment_foreground");
    assert_eq!(all.len(), plain.len() + 9);
    assert_eq!(
        region_color_or(None, [s(1.0); 3]),
        ([s(1.0); 3], s(0.0))
    );
    assert_eq!(
        region_color_or(Some(([s(2.0); 3], s(3.0))), [s(1.0); 3]),
        ([s(2.0); 3], s(3.0))
    );
}

#[test]
fn settings_have_defaults() {
    assert_eq!(DctParams::default().high_freq_threshold, 3);
    assert!(DctParams::default().is_high(1, 2));
    assert!(!DctParams::default().is_high(1, 1));
    let four = DctParams {
        high_freq_threshold: 4,
    };
    assert!(four.is_high(1, 3));
    assert!(!four.is_high(1, 2));
    assert!(!DctParams {
        high_freq_threshold: 0
    }
    .is_high(0, 0));
    let p = ImpressionParams::default();
    assert_eq!((p.k, p.max_iter), (4, 10));
    let m = MorphologyParams::default();
    assert_eq!((m.open_radius, m.close_radius, m.erode_radius), (2, 8, 3));
    let c = ColorPartitionParams::default();
    assert!(c.enabled);
    assert_eq!((c.max_depth, c.max_clusters, c.border_band), (5, 16, 3));
    assert_eq!(f(c.variance_threshold), 0.1);
    assert_eq!(f(c.min_cluster_area_ratio), 0.01);
    assert_eq!(f(c.bg_score_threshold), 0.55);
    assert_eq!(f(c.bg_connect_threshold), 0.08);
    assert_eq!(f(c.max_bg_ratio), 0.85);
    let r = SpectralResidualParams::default();
    assert_eq!(r.mean_filter_kernel, 3);
    assert_eq!(f(r.gaussian_sigma), 3.0);
    assert_eq!(f(r.gamma), 1.0);
    assert_eq!(f(r.post_gamma), 1.0);
}
