//! Pieces of the larger steps, on small values.

use color_extract::anime::{
    can_connect_neighbors, is_strong_neighbor_boundary, rgb_dist_sq_u8, GrowLimits, PixelFeature,
    RegionStats,
};
use color_extract::anime_merge::stats_to_output;
use color_extract::background::{
    compute_background_features, BackgroundFeatureInputs, BackgroundFeatureResult,
    BackgroundFloodBarrierParams, BackgroundParams,
};
use color_extract::border::{border_mask, marked_pixels};
use color_extract::fusion::{apply_filter, clamp_all};
use color_extract::impression::choose_pixels;
use color_extract::merge::{merge_numbers, relabel, small_ids, Offer, PairPlan};
use color_extract::adjacency::AdjacentStats;
use color_extract::params::{ColorPartitionParams, FilterParams, MorphologyParams};
use color_extract::partition::Spread;
use color_extract::pipeline::{background_names, fused_names, segment_names};
use color_extract::refine::{perform_split, region_color_distance, RefineLimits};
use color_extract::region::Region;
use color_extract::scalar::Scalar;
use color_extract::separation::flood_from_mask;
use color_extract::softmask::{apply_foreground_protect, PartitionWeight};
use color_extract::split::{split_region, Moments};
use color_extract::uf::Uf;

fn s(v: f64) -> Scalar {
    Scalar::new(v.to_bits())
}

fn f(v: Scalar) -> f64 {
    f64::from_bits(v.bits)
}

fn limits() -> GrowLimits {
    GrowLimits {
        strong_sq: 1000,
        y_limit: 20,
        chroma_limit: 80,
        link_sq: 500,
        edge_wall: s(0.5),
    }
}

#[test]
fn pixels_have_luma_and_chroma() {
    let p = PixelFeature::from_rgb([200, 100, 51]);
    assert_eq!((p.y, p.co, p.cg), (112, 149, -51));
    let q = PixelFeature::from_rgb([190, 100, 61]);
    assert_eq!(rgb_dist_sq_u8(p, q), 200);
    assert_eq!(rgb_dist_sq_u8(p, p), 0);
}

#[test]
fn neighbours_connect_by_colour_and_edge() {
    let gray = |v: u8| PixelFeature::from_rgb([v, v, v]);
    let lim = limits();
    assert!(!is_strong_neighbor_boundary(gray(100), gray(110), &lim));
    assert!(is_strong_neighbor_boundary(gray(100), gray(119), &lim));
    assert!(can_connect_neighbors(gray(100), gray(110), s(0.1), &lim));
    assert!(!can_connect_neighbors(gray(100), gray(110), s(0.9), &lim));
    assert!(!can_connect_neighbors(gray(100), gray(114), s(0.1), &lim));
}

#[test]
fn regions_sum_up_their_pixels() {
    let mut r = RegionStats::new(0, 4, 3);
    r.add_pixel(5, 4, PixelFeature::from_rgb([10, 20, 30]));
    r.add_pixel(10, 4, PixelFeature::from_rgb([20, 30, 41]));
    assert_eq!((r.area, r.sum_x, r.sum_y), (2, 3, 3));
    assert_eq!((r.min_x, r.min_y, r.max_x, r.max_y), (1, 1, 2, 2));
    let mean = r.mean_rgb();
    let (regions, palette) = stats_to_output(&[r]);
    assert_eq!(regions[0].area, 2);
    assert_eq!(palette.colors, vec![mean]);
    assert_eq!(palette.counts, vec![2]);
    assert_eq!(mean[0], 15);
    assert_eq!(mean[1], 25);
}

fn pair(a: usize, b: usize) -> AdjacentStats {
    AdjacentStats {
        a,
        b,
        samples: vec![(0, 1)],
    }
}

fn plan(merge: bool, allowed: bool, score: f64) -> PairPlan {
    let offer = Offer {
        allowed,
        score: s(score),
    };
    PairPlan {
        merge,
        a_into_b: offer,
        b_into_a: offer,
    }
}

#[test]
fn small_regions_take_the_best_offer() {
    let areas = [100, 1, 100];
    let pairs = [pair(0, 1), pair(1, 2)];
    let plans = [plan(false, true, 5.0), plan(false, true, 2.0)];
    assert_eq!(small_ids(&areas, 10), vec![1]);
    let (numbers, count) = merge_numbers(&areas, &pairs, &plans, true, 10);
    assert_eq!(count, 2);
    assert_eq!(numbers[1], numbers[2]);
    assert_ne!(numbers[0], numbers[1]);
    let (numbers, count) = merge_numbers(&areas, &pairs, &plans, false, 10);
    assert_eq!((numbers, count), (vec![0, 1, 2], 3));
    let refused = [plan(false, false, 5.0), plan(false, false, 2.0)];
    assert_eq!(merge_numbers(&areas, &pairs, &refused, true, 10).1, 3);
    let joined = [plan(true, false, 0.0), plan(true, false, 0.0)];
    let (numbers, count) = merge_numbers(&areas, &pairs, &joined, false, 10);
    assert_eq!((numbers, count), (vec![0, 0, 0], 1));
    assert_eq!(
        relabel(&[Some(2), None, Some(0)], &[7, 8, 9]),
        vec![Some(9), None, Some(7)]
    );
}

fn region(cluster_id: usize) -> Region {
    Region {
        id: 0,
        cluster_id,
        area: 1,
        sum_x: 0,
        sum_y: 0,
        bbox: (0, 0, 0, 0),
        pixel_count: 1,
    }
}

#[test]
fn pairs_merge_by_edge_or_colour() {
    let lim = RefineLimits {
        edge_merge: s(0.2),
        edge_split: s(0.5),
        color_merge: s(8.0),
        color_edge: s(0.4),
        small_color: s(24.0),
        merge_small_regions: true,
        min_region_area: 40,
    };
    assert!(lim.should_merge_pair(s(0.2), None));
    assert!(!lim.should_merge_pair(s(0.3), None));
    assert!(lim.should_merge_pair(s(0.3), Some(s(8.0))));
    assert!(!lim.should_merge_pair(s(0.5), Some(s(1.0))));
    assert!(!lim.should_merge_pair(s(0.3), Some(s(8.5))));
    assert_eq!(
        region_color_distance(&region(1), &region(2), Some(s(3.0))),
        Some(s(3.0))
    );
}

#[test]
fn a_stride_of_one_takes_all_pixels() {
    let weights: Vec<Scalar> = [1.0, 0.0, 0.5, 0.25, -1.0, 2.0].iter().map(|&v| s(v)).collect();
    let all = choose_pixels(&weights, 3, 2, "all", 1);
    assert_eq!(all, vec![0, 2, 3, 5]);
    assert_eq!(choose_pixels(&weights, 3, 2, "stride", 1), all);
    assert_eq!(choose_pixels(&weights, 3, 2, "stride", 0), all);
    assert_eq!(choose_pixels(&weights, 3, 2, "stride", 2), vec![0, 2]);
}

#[test]
fn quantiles_drop_no_more_than_their_rank() {
    let data: Vec<Scalar> = [0.3, 0.1, 0.1, 0.9, 0.5].iter().map(|&v| s(v)).collect();
    let filter = FilterParams {
        method: "quantile".to_string(),
        threshold: None,
        normalize_before: None,
        quantile: Some(s(60.0)),
    };
    let same = |_: Scalar, _: Scalar, v: Scalar| v;
    let flat = |_: Scalar, _: Scalar| false;
    for pos in 0..7usize {
        let rank = |_: Scalar, _: usize| pos;
        let out = apply_filter(&data, &filter, &rank, &same, false, &flat, &same);
        let dropped = out.iter().filter(|&&v| f(v) == 0.0).count();
        assert!(dropped <= pos);
    }
    let rank = |_: Scalar, _: usize| 2usize;
    let out = apply_filter(&data, &filter, &rank, &same, false, &flat, &same);
    let out: Vec<f64> = out.into_iter().map(f).collect();
    assert_eq!(out, [0.3, 0.0, 0.0, 0.9, 0.5]);
    let clamped: Vec<f64> = clamp_all(&[s(-1.0), s(0.5), s(2.0)]).into_iter().map(f).collect();
    assert_eq!(clamped, [0.0, 0.5, 1.0]);
}

#[test]
fn floods_start_at_the_border() {
    let raw = [true, false, false, false, false, false, false, false, false];
    let near = |_: usize, _: usize| s(0.0);
    let all = flood_from_mask(&raw, 3, 3, 1, s(0.5), &near);
    assert_eq!(all, vec![true; 9]);
    let far = |_: usize, _: usize| s(0.9);
    let one = flood_from_mask(&raw, 3, 3, 1, s(0.5), &far);
    assert_eq!(one, raw.to_vec());
    assert_eq!(marked_pixels(&border_mask(3, 3, 1)), vec![0, 1, 2, 3, 5, 6, 7, 8]);
}

#[test]
fn the_foreground_is_protected() {
    let shade = |m: Scalar, p: Scalar| s(f(m) * (1.0 - 0.5 * f(p)));
    let out = apply_foreground_protect(&[true, true, false], &[s(1.0), s(0.0), s(1.0)], true, &shade);
    let out: Vec<f64> = out.into_iter().map(f).collect();
    assert_eq!(out, [0.5, 1.0, 0.0]);
    let off = apply_foreground_protect(&[true, false], &[s(1.0), s(1.0)], false, &shade);
    let off: Vec<f64> = off.into_iter().map(f).collect();
    assert_eq!(off, [1.0, 0.0]);
}

#[test]
fn diagnostic_maps_have_names() {
    assert_eq!(
        background_names(),
        [
            "bg_candidate",
            "bg_barrier",
            "bg_mask_before_protect",
            "foreground_protect",
            "bg_mask_after_protect",
            "fg_confidence"
        ]
    );
    assert_eq!(
        segment_names(),
        [
            "segment_region_id",
            "segment_boundary",
            "segment_bg_probability",
            "segment_saliency",
            "segment_subject_confidence"
        ]
    );
    assert_eq!(
        fused_names(),
        [
            "fused_add",
            "fused_softmul",
            "fused_hybrid",
            "fused_add_filtered",
            "fused_softmul_filtered",
            "fused_hybrid_filtered"
        ]
    );
}

#[test]
fn the_larger_class_keeps_its_root() {
    let mut uf = Uf::new(4);
    uf.union(0, 1);
    uf.union(2, 0);
    assert_eq!(uf.find(0), 0);
    assert_eq!(uf.find(1), 0);
    assert_eq!(uf.find(2), 0);
    assert_eq!(uf.find(3), 3);
    let root = uf.find(2);
    assert_eq!(uf.find(root), root);
    assert!(uf.same(1, 2));
    assert!(!uf.same(1, 3));
    assert_eq!(uf.resolve(), (vec![0, 0, 0, 1], 2));
}

fn background_of(enabled: bool) -> BackgroundFeatureResult {
    let l = [s(50.0), s(60.0)];
    let zero = [s(0.0), s(0.0)];
    let border = [s(0.9), s(0.9)];
    let protect = [s(1.0), s(0.0)];
    let features = BackgroundFeatureInputs {
        dct: &zero,
        lab_grad: &zero,
        spectral: &zero,
        local_light: &zero,
    };
    let params = BackgroundParams {
        partition: ColorPartitionParams {
            enabled,
            max_bg_ratio: s(1.0),
            ..ColorPartitionParams::default()
        },
        morphology: MorphologyParams {
            open_radius: 0,
            close_radius: 0,
            erode_radius: 0,
        },
        flood_barrier: BackgroundFloodBarrierParams {
            enabled: true,
            color_threshold: s(0.45),
            barrier_color_relax_threshold: s(0.92),
            grad_stop: s(0.5),
            dct_stop: s(0.5),
            local_light_stop: s(0.5),
            spectral_stop: s(0.5),
        },
    };
    compute_background_features(
        &l,
        &zero,
        &zero,
        &border,
        &protect,
        &features,
        2,
        1,
        &params,
        0,
        &|at: &Vec<usize>| at.len(),
        &|_: &usize| Spread {
            l: s(1.0),
            a: s(0.0),
            b: s(0.0),
            total: s(0.0),
        },
        &|_: &usize, _: &usize| s(0.0),
        &|_: &usize, on: usize, all: usize| s(on as f64 / all as f64),
        &|_: usize, _: usize| s(0.0),
        &|a: usize, b: usize| s(a as f64 / b as f64),
        &|m: Scalar, p: Scalar| s(f(m) * (1.5 - f(p))),
        &|v: Scalar| (f(v) * 255.0).round() as u8,
        &|v: &Vec<Scalar>| s(v.iter().map(|&x| f(x)).sum::<f64>() / v.len() as f64),
        &|_: PartitionWeight, m: Scalar, _: Scalar| m,
        &|v: &Vec<Scalar>| v.iter().map(|&x| s(2.0 - 2.0 * f(x))).collect::<Vec<_>>(),
        &|m: Scalar, g: Scalar| s((1.0 - f(m)) * 0.2 + f(g) * 0.8),
    )
}

#[test]
fn without_partition_everything_is_foreground() {
    let floats = |v: &Vec<Scalar>| -> Vec<f64> { v.iter().map(|&x| f(x)).collect() };
    let r = background_of(false);
    assert_eq!(floats(&r.bg_mask_morph), [1.0, 1.0]);
    assert_eq!(floats(&r.fg_confidence), [1.0, 1.0]);
    let d = &r.diagnostics;
    assert_eq!(floats(&d.fg_confidence), [1.0, 1.0]);
    for step in [
        &d.bg_candidate,
        &d.bg_barrier,
        &d.bg_mask_before_protect,
        &d.foreground_protect,
        &d.bg_mask_after_protect,
    ] {
        assert_eq!(floats(step), [0.0, 0.0]);
    }
    let r = background_of(true);
    let d = &r.diagnostics;
    assert_eq!(floats(&d.bg_candidate), [1.0, 1.0]);
    assert_eq!(floats(&d.bg_barrier), [0.0, 0.0]);
    assert_eq!(floats(&d.bg_mask_before_protect), [1.0, 1.0]);
    assert_eq!(floats(&d.foreground_protect), [1.0, 0.0]);
    assert_eq!(floats(&d.bg_mask_after_protect), [0.5, 1.0]);
    assert_eq!(floats(&r.fg_confidence), [1.0, 0.0]);
    assert_eq!(floats(&d.fg_confidence), floats(&r.fg_confidence));
    assert_eq!(floats(&r.bg_mask_morph), [0.5 * 0.2 + 0.8, 0.0]);
}

#[test]
fn absorbed_parts_are_labelled_by_their_absorber() {
    let width = 11;
    let labels = vec![Some(0); width];
    let mut edge = vec![s(0.0); width];
    edge[3] = s(1.0);
    edge[7] = s(1.0);
    let whole = Region {
        id: 0,
        cluster_id: 5,
        area: width,
        sum_x: 55,
        sum_y: 0,
        bbox: (0, 0, 10, 0),
        pixel_count: width,
    };
    let distance = |a: Moments, b: Moments| {
        let x = |m: Moments| m.sum_x as f64 / m.count as f64;
        s((x(a) - x(b)) * (x(a) - x(b)))
    };
    let (parts, map) = split_region(&whole, &labels, &edge, 11, 1, s(0.5), 2, &distance);
    assert_eq!(parts.len(), 2);
    for (q, part) in parts.iter().enumerate() {
        assert_eq!(part.area, map.iter().filter(|&&l| l == Some(q)).count());
    }
    assert!(map.iter().all(|l| l.is_some()));
    assert_eq!(parts.iter().map(|p| p.area).sum::<usize>(), width);
    let (regions, map) = perform_split(&[whole], &labels, &edge, 11, 1, s(0.5), 2, &distance);
    assert_eq!(regions.iter().map(|p| p.area).sum::<usize>(), width);
    for r in &regions {
        assert_eq!(r.area, map.iter().filter(|&&l| l == Some(r.id)).count());
    }
}

#[test]
fn regions_ignore_the_order_of_pixels() {
    let pixels: Vec<(usize, PixelFeature)> = [(5, [10, 20, 30]), (0, [1, 2, 3]), (11, [9, 9, 9])]
        .map(|(i, c)| (i, PixelFeature::from_rgb(c)))
        .to_vec();
    let sum = |order: [usize; 3]| {
        let mut r = RegionStats::new(2, 4, 3);
        for k in order {
            r.add_pixel(pixels[k].0, 4, pixels[k].1);
        }
        r
    };
    let first = sum([0, 1, 2]);
    assert_eq!(first, sum([2, 1, 0]));
    assert_eq!(first, sum([1, 2, 0]));
    assert_eq!((first.area, first.sum_r, first.max_x, first.max_y), (3, 20, 3, 2));
}
