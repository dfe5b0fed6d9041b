//! Segmentation, refinement and edge maps on small images.

use color_extract::adjacency::{
    compute_adjacency, compute_region_adjacency, pack_pair_key, unpack_pair_key, AdjacentStats,
};
use color_extract::anime::{GrowLimits, PixelFeature, RegionStats};
use color_extract::anime_merge::{MergeLimits, PairMeasure};
use color_extract::ccl::ccl_within_region;
use color_extract::dilate::dilate_boundary;
use color_extract::edge::{at, detect_edges, detect_edges_fast, Around};
use color_extract::overlays::{
    boundary_marks, gen_boundary_overlay, gen_colored_overlay, render_segmented_png, top_colors,
};
use color_extract::params::SegmentParams;
use color_extract::refine::{refine, refine_with_colors, BoundaryMeasure, RefineLimits};
use color_extract::region::{Palette, Region};
use color_extract::scalar::Scalar;
use color_extract::segment::{
    segment, segment_anime_blocks, Contact, SegmentError, SegmentResult,
};
use color_extract::split::Moments;
use palette::{IntoColor, Lab, Srgb};

fn s(v: f64) -> Scalar {
    Scalar::new(v.to_bits())
}

fn f(v: Scalar) -> f64 {
    f64::from_bits(v.bits)
}

fn lab_of(rgb: [f64; 3]) -> [f64; 3] {
    let srgb = Srgb::new(rgb[0] as f32, rgb[1] as f32, rgb[2] as f32);
    let lab: Lab = srgb.into_color();
    [lab.l as f64, lab.a as f64, lab.b as f64]
}

fn dist_sq(a: [u8; 3], b: [u8; 3]) -> f64 {
    (0..3)
        .map(|c| (a[c] as f64 - b[c] as f64) * (a[c] as f64 - b[c] as f64))
        .sum()
}

fn direct_edge_strength(a: [u8; 3], b: [u8; 3]) -> f64 {
    let fa = PixelFeature::from_rgb(a);
    let fb = PixelFeature::from_rgb(b);
    let rgb = dist_sq(a, b).sqrt() / 72.0;
    let dy = (fa.y - fb.y).abs() as f64 / 42.0;
    let chroma = ((fa.co - fb.co).abs() as f64 + (fa.cg - fb.cg).abs() as f64) / 180.0;
    rgb.max(dy).max(chroma).clamp(0.0, 1.0)
}

fn pixel_lab(p: [u8; 3]) -> [f32; 3] {
    let srgb = Srgb::new(
        p[0] as f32 / 255.0,
        p[1] as f32 / 255.0,
        p[2] as f32 / 255.0,
    );
    let lab: Lab = srgb.into_color();
    [lab.l, lab.a, lab.b]
}

fn fast_gradient(p: Around<[f32; 3]>) -> Scalar {
    let energy = |c: usize| -> f64 {
        let gx = -p.nw[c] - 2.0 * p.w[c] - p.sw[c] + p.ne[c] + 2.0 * p.e[c] + p.se[c];
        let gy = -p.nw[c] - 2.0 * p.n[c] - p.ne[c] + p.sw[c] + 2.0 * p.s[c] + p.se[c];
        (gx.abs() + gy.abs()) as f64
    };
    s(energy(0) + energy(1) * 0.95 + energy(2) * 0.95)
}

fn run_segment(
    pixels: &[[u8; 3]],
    w: u32,
    h: u32,
    params: &SegmentParams,
) -> Result<SegmentResult, SegmentError> {
    let threshold = f(params.edge_threshold);
    let gamma = f(params.edge_gamma).clamp(0.2, 3.0);
    let curve = |m: Scalar, v: Scalar| {
        let (max_v, v) = (f(m), f(v));
        let cutoff = (threshold.clamp(0.0, 1.0) * max_v).max(1.0);
        let edge = if v <= cutoff {
            0.0
        } else {
            ((v - cutoff) / (max_v - cutoff).max(1.0)).clamp(0.0, 1.0)
        };
        s(if gamma == 1.0 { edge } else { edge.powf(gamma) })
    };
    let split = f(params.edge_split_strength);
    let color = f(params.color_merge_distance);
    let edge_wall = (split * 0.68).clamp(0.45, 0.85);
    let local = (color * 1.75 + 4.0).clamp(12.0, 30.0) * 1.3;
    let grow = GrowLimits {
        strong_sq: (edge_wall * 72.0 * (edge_wall * 72.0)).ceil() as u32,
        y_limit: (edge_wall * 42.0) as i16,
        chroma_limit: (edge_wall * 180.0) as i16,
        link_sq: (local * local).floor() as u32,
        edge_wall: s(edge_wall),
    };
    let guard = split.clamp(0.25, 0.98);
    let total = (w as usize * h as usize) as f64;
    let merge = MergeLimits {
        edge_merge: params.edge_merge_strength,
        color_merge: s((color * 1.9 + 5.0).clamp(14.0, 32.0)),
        edge_guard: s(guard * 0.45),
        edge_split: params.edge_split_strength,
        small_color: s(f(params.small_region_color_distance) * 1.6),
        merge_small_regions: params.merge_small_regions,
        min_region_area: params.min_region_area,
        ratio_area: (total * f(params.min_cluster_area_ratio)).round() as usize,
    };
    let hint = |a: Scalar, b: Scalar| s((f(a) + f(b)) * 0.175);
    let measure = |c: &Vec<Contact>, a: &RegionStats, b: &RegionStats| {
        let len = c.len() as f64;
        let edge = c
            .iter()
            .map(|c| direct_edge_strength(c.a, c.b).max((f(c.edge_a) + f(c.edge_b)) * 0.5))
            .sum::<f64>()
            / len;
        let mean_color = c.iter().map(|c| dist_sq(c.a, c.b).sqrt()).sum::<f64>() / len;
        let mean = |r: &RegionStats| {
            let n = r.area as f64;
            [r.sum_r as f64 / n, r.sum_g as f64 / n, r.sum_b as f64 / n]
        };
        let (ma, mb) = (mean(a), mean(b));
        let region_color = (0..3)
            .map(|c| (ma[c] - mb[c]) * (ma[c] - mb[c]))
            .sum::<f64>()
            .sqrt();
        let score = |other: &RegionStats| {
            region_color + edge * 35.0 - len.sqrt() * 3.0 - (other.area as f64).ln_1p().min(12.0)
        };
        PairMeasure {
            edge: s(edge),
            color: s(mean_color),
            region_color: s(region_color),
            score_a: s(score(b)),
            score_b: s(score(a)),
        }
    };
    segment_anime_blocks(
        pixels,
        w,
        h,
        &grow,
        &merge,
        &pixel_lab,
        &fast_gradient,
        &curve,
        &hint,
        &measure,
    )
}

fn two_halves(w: u32, h: u32, left: [u8; 3], right: [u8; 3]) -> Vec<[u8; 3]> {
    let mut pixels = Vec::new();
    for _ in 0..h {
        for x in 0..w {
            pixels.push(if x < w / 2 { left } else { right });
        }
    }
    pixels
}

#[test]
fn keeps_flat_blocks_connected() {
    let pixels = two_halves(12, 6, [240, 80, 90], [70, 110, 230]);
    let params = SegmentParams {
        min_region_area: 1,
        ..SegmentParams::default()
    };
    let result = run_segment(&pixels, 12, 6, &params).expect("segment");
    assert_eq!(result.regions.len(), 2);
    assert!(result.labels.iter().all(|l| l.is_some()));
}

#[test]
fn absorbs_single_pixel_noise() {
    let mut pixels = vec![[220, 220, 230]; 100];
    pixels[5 * 10 + 5] = [225, 219, 231];
    let params = SegmentParams {
        min_region_area: 8,
        ..SegmentParams::default()
    };
    let result = run_segment(&pixels, 10, 10, &params).expect("segment");
    assert_eq!(result.regions.len(), 1);
}

#[test]
fn test_segment_synthetic_4x4() {
    let pixels = two_halves(4, 4, [255, 0, 0], [0, 0, 255]);
    let params = SegmentParams {
        min_region_area: 1,
        ..SegmentParams::default()
    };
    let result = run_segment(&pixels, 4, 4, &params).expect("segmentation should succeed");
    assert_eq!(result.width, 4);
    assert_eq!(result.height, 4);
    assert_eq!(result.edge_map.len(), 16);
    for &e in &result.edge_map {
        let e = f(e);
        assert!((0.0..=1.0).contains(&e), "edge strength {e} out of [0,1]");
    }
    assert_eq!(result.labels.len(), 16);
    assert!(
        !result.regions.is_empty(),
        "should find at least one connected region"
    );
    for col in &result.palette.colors {
        assert!((0..=255).contains(&col[0]));
        assert!((0..=255).contains(&col[1]));
        assert!((0..=255).contains(&col[2]));
    }
    assert_eq!(result.palette.colors.len(), result.palette.counts.len());
}

#[test]
fn test_segment_empty_image() {
    let params = SegmentParams::default();
    let result = run_segment(&[], 0, 0, &params);
    assert!(result.is_err(), "empty image must fail");
    assert_eq!(
        result.unwrap_err().message(),
        "image must have at least 1 pixel"
    );
}

#[test]
fn segment_and_segment_anime_blocks_agree() {
    let pixels = two_halves(6, 3, [10, 20, 30], [200, 210, 220]);
    let limits = GrowLimits {
        strong_sq: 1000,
        y_limit: 30,
        chroma_limit: 100,
        link_sq: 500,
        edge_wall: s(0.5),
    };
    let merge = MergeLimits {
        edge_merge: s(0.0),
        color_merge: s(1.0),
        edge_guard: s(0.0),
        edge_split: s(0.4),
        small_color: s(1.0),
        merge_small_regions: false,
        min_region_area: 1,
        ratio_area: 0,
    };
    let convert = |p: [u8; 3]| p[0] as f64;
    let gradient = |a: Around<f64>| s(a.e - a.w);
    let curve = |m: Scalar, v: Scalar| s(f(v) / f(m));
    let hint = |_: Scalar, _: Scalar| s(0.0);
    let measure = |c: &Vec<Contact>, _: &RegionStats, _: &RegionStats| {
        assert_eq!(c.len(), 3);
        assert!(c.iter().all(|c| c.a == [10, 20, 30] && c.b == [200, 210, 220]));
        assert!(c.iter().all(|c| f(c.edge_a) == 1.0 && f(c.edge_b) == 1.0));
        PairMeasure {
            edge: s(1.0),
            color: s(100.0),
            region_color: s(100.0),
            score_a: s(0.0),
            score_b: s(0.0),
        }
    };
    let r = segment(
        &pixels, 6, 3, &limits, &merge, &convert, &gradient, &curve, &hint, &measure,
    )
    .unwrap();
    let again = segment_anime_blocks(
        &pixels, 6, 3, &limits, &merge, &convert, &gradient, &curve, &hint, &measure,
    )
    .unwrap();
    assert_eq!(again.labels, r.labels);
    assert_eq!(again.edge_map, r.edge_map);
    let middle: Vec<f64> = r.edge_map[6..12].iter().map(|&e| f(e)).collect();
    assert_eq!(middle, vec![1.0, 0.0, 1.0, 1.0, 0.0, 1.0]);
    assert_eq!(r.regions.len(), 2);
    assert_eq!(r.regions[0].area, 9);
    assert_eq!(r.regions[0].bbox, (0, 0, 2, 2));
    assert_eq!(r.regions[1].bbox, (3, 0, 5, 2));
    assert_eq!(r.regions[1].sum_x, 3 * (3 + 4 + 5));
    assert_eq!(r.palette.colors, vec![[10, 20, 30], [200, 210, 220]]);
    assert_eq!(r.palette.counts, vec![9, 9]);
    assert_eq!(r.labels[2], Some(0));
    assert_eq!(r.labels[3], Some(1));
    let areas: usize = r.regions.iter().map(|r| r.area).sum();
    assert_eq!(areas, 18);
}

fn relaxed_params() -> SegmentParams {
    SegmentParams {
        min_region_area: 0,
        edge_merge_strength: s(0.05),
        edge_split_strength: s(0.4),
        ..SegmentParams::default()
    }
}

fn refine_limits(params: &SegmentParams) -> RefineLimits {
    let (merge, split) = (f(params.edge_merge_strength), f(params.edge_split_strength));
    RefineLimits {
        edge_merge: params.edge_merge_strength,
        edge_split: params.edge_split_strength,
        color_merge: params.color_merge_distance,
        color_edge: s((split * 0.75).max(merge).min(1.0)),
        small_color: params.small_region_color_distance,
        merge_small_regions: params.merge_small_regions,
        min_region_area: params.min_region_area,
    }
}

fn mean_edge(edge: &[f64], p: &AdjacentStats) -> f64 {
    let sum: f64 = p
        .samples
        .iter()
        .map(|&(i, j)| (edge[i] + edge[j]) * 0.5)
        .sum();
    sum / p.samples.len() as f64
}

fn moments_distance(a: Moments, b: Moments) -> Scalar {
    let c = |m: Moments| {
        let n = m.count.max(1) as f64;
        (m.sum_x as f64 / n, m.sum_y as f64 / n)
    };
    let (ax, ay) = c(a);
    let (bx, by) = c(b);
    s((ax - bx) * (ax - bx) + (ay - by) * (ay - by))
}

fn run_refine(
    regions: &[Region],
    labels: &[Option<usize>],
    edge: &[f64],
    centers: Option<&[[f64; 3]]>,
    w: u32,
    h: u32,
    params: &SegmentParams,
) -> (Vec<Region>, Vec<Option<usize>>) {
    let scalars: Vec<Scalar> = edge.iter().map(|&e| s(e)).collect();
    let small = f(params.small_region_color_distance);
    let measure = |p: &AdjacentStats, a: &Region, b: &Region| {
        let m = mean_edge(edge, p);
        let lab = centers.and_then(|c| {
            let x = c.get(a.cluster_id)?;
            let y = c.get(b.cluster_id)?;
            Some(
                (0..3)
                    .map(|k| (x[k] - y[k]) * (x[k] - y[k]))
                    .sum::<f64>()
                    .sqrt(),
            )
        });
        let color = if a.cluster_id == b.cluster_id {
            0.0
        } else {
            lab.unwrap_or(small)
        };
        BoundaryMeasure {
            edge: s(m),
            lab: lab.map(s),
            score: s(color + m * 16.0 - (p.samples.len() as f64).sqrt()),
        }
    };
    let lim = refine_limits(params);
    if centers.is_some() {
        refine_with_colors(
            regions,
            labels,
            &scalars,
            w,
            h,
            &lim,
            &measure,
            &moments_distance,
        )
    } else {
        refine(
            regions,
            labels,
            &scalars,
            w,
            h,
            &lim,
            &measure,
            &moments_distance,
        )
    }
}

fn regions_from_labels(labels: &[Option<usize>], width: u32, num_regions: usize) -> Vec<Region> {
    let w = width as usize;
    (0..num_regions)
        .map(|rid| {
            let own: Vec<usize> = (0..labels.len())
                .filter(|&i| labels[i] == Some(rid))
                .collect();
            let xs = || own.iter().map(|&i| (i % w) as u32);
            let ys = || own.iter().map(|&i| (i / w) as u32);
            Region {
                id: rid,
                cluster_id: 0,
                area: own.len(),
                pixel_count: own.len(),
                sum_x: xs().map(|x| x as u64).sum(),
                sum_y: ys().map(|y| y as u64).sum(),
                bbox: (
                    xs().min().unwrap_or(width),
                    ys().min().unwrap_or(labels.len() as u32),
                    xs().max().unwrap_or(0),
                    ys().max().unwrap_or(0),
                ),
            }
        })
        .collect()
}

fn halves() -> Vec<Option<usize>> {
    vec![
        Some(0),
        Some(0),
        Some(1),
        Some(1),
        Some(0),
        Some(0),
        Some(1),
        Some(1),
    ]
}

#[test]
fn test_merge_weak_edge() {
    let w = 4u32;
    let h = 2u32;
    let total = (w * h) as usize;
    let labels = halves();
    let regions = regions_from_labels(&labels, w, 2);
    let mut edge = vec![0.0; total];
    edge[1] = 0.01;
    edge[3] = 0.01;
    edge[5] = 0.01;
    edge[7] = 0.01;
    edge[1] = 0.01;
    edge[2] = 0.01;
    edge[5] = 0.01;
    edge[6] = 0.01;
    let params = relaxed_params();
    let (result_regions, result_labels) =
        run_refine(&regions, &labels, &edge, None, w, h, &params);
    assert_eq!(result_regions.len(), 1, "weak edge → single merged region");
    assert_eq!(result_regions[0].area, 8);
    assert!(result_labels.iter().all(|l| l == &Some(0)));
}

#[test]
fn test_no_merge_strong_edge() {
    let w = 4u32;
    let h = 2u32;
    let total = (w * h) as usize;
    let labels = halves();
    let regions = regions_from_labels(&labels, w, 2);
    let mut edge = vec![0.0; total];
    edge[1] = 0.5;
    edge[2] = 0.5;
    edge[5] = 0.5;
    edge[6] = 0.5;
    let params = relaxed_params();
    let (result_regions, _result_labels) =
        run_refine(&regions, &labels, &edge, None, w, h, &params);
    assert_eq!(
        result_regions.len(),
        2,
        "strong edge → regions stay separate"
    );
    assert_eq!(result_regions[0].area, 4);
    assert_eq!(result_regions[1].area, 4);
}

#[test]
fn test_split_internal_edge() {
    let w = 6u32;
    let h = 4u32;
    let total = (w * h) as usize;
    let labels: Vec<Option<usize>> = vec![Some(0); total];
    let regions = regions_from_labels(&labels, w, 1);
    let mut edge = vec![0.0; total];
    for y in 0..h as usize {
        edge[y * 6 + 3] = 0.5;
    }
    let mut params = relaxed_params();
    params.edge_split_strength = s(0.4);
    let (result_regions, _result_labels) =
        run_refine(&regions, &labels, &edge, None, w, h, &params);
    assert!(
        result_regions.len() >= 2,
        "internal strong edge should split region (got {} regions)",
        result_regions.len()
    );
}

#[test]
fn test_no_split_uniform_region() {
    let w = 4u32;
    let h = 4u32;
    let total = (w * h) as usize;
    let labels: Vec<Option<usize>> = vec![Some(0); total];
    let regions = regions_from_labels(&labels, w, 1);
    let edge = vec![0.0; total];
    let params = relaxed_params();
    let (result_regions, _result_labels) =
        run_refine(&regions, &labels, &edge, None, w, h, &params);
    assert_eq!(result_regions.len(), 1, "uniform region → no split");
    assert_eq!(result_regions[0].area, 16);
}

#[test]
fn test_combined_merge_and_split() {
    let w = 6u32;
    let h = 2u32;
    let total = (w * h) as usize;
    let labels: Vec<Option<usize>> = vec![
        Some(0),
        Some(0),
        Some(1),
        Some(1),
        Some(2),
        Some(2),
        Some(0),
        Some(0),
        Some(1),
        Some(1),
        Some(2),
        Some(2),
    ];
    let regions = regions_from_labels(&labels, w, 3);
    let mut edge = vec![0.0; total];
    edge[1] = 0.01;
    edge[2] = 0.01;
    edge[7] = 0.01;
    edge[8] = 0.01;
    edge[3] = 0.5;
    edge[4] = 0.5;
    edge[9] = 0.5;
    edge[10] = 0.5;
    edge[2] = 0.5;
    edge[3] = 0.5;
    edge[8] = 0.5;
    edge[9] = 0.5;
    let params = relaxed_params();
    let (result_regions, _result_labels) =
        run_refine(&regions, &labels, &edge, None, w, h, &params);
    assert!(
        result_regions.len() >= 2,
        "combined: expect at least 2 regions after merge+split, got {}",
        result_regions.len()
    );
}

#[test]
fn test_empty_regions() {
    let regions: Vec<Region> = Vec::new();
    let labels: Vec<Option<usize>> = vec![None; 4];
    let edge = vec![0.0; 4];
    let params = relaxed_params();
    let (result_regions, result_labels) =
        run_refine(&regions, &labels, &edge, None, 2, 2, &params);
    assert!(result_regions.is_empty());
    assert_eq!(result_labels.len(), 4);
    assert!(result_labels.iter().all(|l| l.is_none()));
}

#[test]
fn similar_colours_merge_over_a_soft_edge() {
    let labels = halves();
    let mut regions = regions_from_labels(&labels, 4, 2);
    regions[1].cluster_id = 1;
    let edge = vec![0.2; 8];
    let params = relaxed_params();
    let near = [[50.0, 0.0, 0.0], [53.0, 4.0, 0.0]];
    let (merged, _) = run_refine(&regions, &labels, &edge, Some(&near), 4, 2, &params);
    assert_eq!(merged.len(), 1);
    assert_eq!(merged[0].area, 8);
    assert_eq!(merged[0].sum_x, 2 * (1 + 2 + 3));
    let far = [[50.0, 0.0, 0.0], [80.0, 0.0, 0.0]];
    let (kept, _) = run_refine(&regions, &labels, &edge, Some(&far), 4, 2, &params);
    assert_eq!(kept.len(), 2);
}

#[test]
fn test_dilate_boundary_1px() {
    let w = 5u32;
    let h = 5u32;
    let total = (w * h) as usize;
    let mut mask = vec![false; total];
    mask[2 * 5 + 2] = true;
    dilate_boundary(&mut mask, w, h, 1);
    let center = 2 * 5 + 2;
    assert!(mask[center]);
    assert!(mask[center - 1]);
    assert!(mask[center + 1]);
    assert!(mask[center - 5]);
    assert!(mask[center + 5]);
    assert!(!mask[0]);
    assert!(!mask[4]);
    assert!(!mask[20]);
    assert!(!mask[24]);
}

#[test]
fn dilating_in_steps_is_dilating_at_once() {
    let mut once = vec![false; 49];
    once[24] = true;
    let mut steps = once.clone();
    dilate_boundary(&mut once, 7, 7, 3);
    dilate_boundary(&mut steps, 7, 7, 1);
    dilate_boundary(&mut steps, 7, 7, 2);
    assert_eq!(once, steps);
    assert_eq!(once.iter().filter(|&&m| m).count(), 25);
}

#[test]
fn test_adjacency_two_regions() {
    let w = 4u32;
    let h = 2u32;
    let labels = halves();
    let edge = vec![0.1; 8];
    let pairs = compute_adjacency(&labels, w, h);
    let triples: Vec<(usize, usize, f64)> = pairs
        .iter()
        .map(|p| (p.a, p.b, mean_edge(&edge, p)))
        .collect();
    assert_eq!(triples.len(), 1);
    assert_eq!(triples[0].0, 0);
    assert_eq!(triples[0].1, 1);
    assert!(
        (triples[0].2 - 0.1).abs() < 1e-9,
        "mean edge should be 0.1, got {}",
        triples[0].2
    );
    assert_eq!(pairs[0].samples, vec![(1, 2), (5, 6)]);
    let lists = compute_region_adjacency(&pairs, 2);
    assert_eq!(lists, vec![vec![(1, 0)], vec![(0, 0)]]);
}

#[test]
fn pair_keys_can_be_read_back() {
    assert_eq!(pack_pair_key(3, 7), (3u64 << 32) | 7);
    assert_eq!(unpack_pair_key(pack_pair_key(3, 7)), (3, 7));
}

#[test]
fn components_of_a_region_are_numbered() {
    let region: Vec<usize> = (0..9).collect();
    let mut barrier = vec![false; 9];
    barrier[1] = true;
    barrier[4] = true;
    barrier[7] = true;
    let numbers = ccl_within_region(&region, &barrier, 3, 3);
    assert_eq!(numbers[0], numbers[3]);
    assert_eq!(numbers[3], numbers[6]);
    assert_eq!(numbers[2], numbers[5]);
    assert_ne!(numbers[0], numbers[2]);
}

fn edges_of(pixels: &[[f64; 3]], w: u32, h: u32, threshold: f64) -> Vec<f64> {
    let gradient = |p: Around<[f64; 3]>| {
        let mag = |c: usize| {
            let gx = -p.nw[c] + p.ne[c] - 2.0 * p.w[c] + 2.0 * p.e[c] - p.sw[c] + p.se[c];
            let gy = -p.nw[c] - 2.0 * p.n[c] - p.ne[c] + p.sw[c] + 2.0 * p.s[c] + p.se[c];
            (gx * gx + gy * gy).sqrt() / 8.0
        };
        let (l, a, b) = (mag(0), mag(1), mag(2));
        s((l * l + a * a + b * b).sqrt())
    };
    let settle = |m: Scalar, v: Scalar| {
        let x = f(v) / f(m).max(1e-12);
        if threshold > 0.0 {
            let hi = (threshold * 2.5).min(1.0);
            let t = ((x - threshold) / (hi - threshold).max(1e-12)).clamp(0.0, 1.0);
            s(t * t * (3.0 - 2.0 * t))
        } else {
            s(x)
        }
    };
    detect_edges(pixels, w, h, &lab_of, &gradient, &settle)
        .into_iter()
        .map(f)
        .collect()
}

#[test]
fn test_output_length() {
    let params = SegmentParams::default();
    let pixels = vec![[0.5; 3]; 50 * 30];
    let edges = edges_of(&pixels, 50, 30, f(params.edge_threshold));
    assert_eq!(edges.len(), 1500);
}

#[test]
fn test_values_in_range() {
    let params = SegmentParams::default();
    let w = 16;
    let h = 16;
    let mut pixels = vec![[0.0; 3]; (w * h) as usize];
    for y in 0..h {
        for x in 0..w {
            let i = (y * w + x) as usize;
            pixels[i] = if x + y < w as u32 / 2 + h / 2 {
                [1.0, 0.2, 0.2]
            } else {
                [0.2, 0.2, 1.0]
            };
        }
    }
    let edges = edges_of(&pixels, w, h, f(params.edge_threshold));
    for &e in &edges {
        assert!(e >= 0.0, "negative edge: {}", e);
        assert!(e <= 1.0, "edge > 1.0: {}", e);
    }
}

#[test]
fn test_uniform_image_near_zero() {
    let params = SegmentParams::default();
    let w = 10;
    let h = 10;
    let pixels = vec![[0.6, 0.3, 0.1]; (w * h) as usize];
    let edges = edges_of(&pixels, w, h, f(params.edge_threshold));
    for y in 1..(h as usize - 1) {
        for x in 1..(w as usize - 1) {
            let e = edges[y * (w as usize) + x];
            assert!(
                e < 1e-6,
                "uniform image interior should be 0, got {} at ({},{})",
                e,
                x,
                y
            );
        }
    }
    for x in 0..w as usize {
        assert!((edges[x] - 1.0).abs() < 1e-6);
        assert!((edges[(h as usize - 1) * (w as usize) + x] - 1.0).abs() < 1e-6);
    }
    for y in 1..(h as usize - 1) {
        assert!((edges[y * (w as usize)] - 1.0).abs() < 1e-6);
        assert!((edges[y * (w as usize) + (w as usize) - 1] - 1.0).abs() < 1e-6);
    }
}

#[test]
fn test_tiny_image_no_sobel_window() {
    let params = SegmentParams::default();
    let pixels = vec![[0.2, 0.3, 0.4]; 4];
    let edges = edges_of(&pixels, 2, 2, f(params.edge_threshold));
    assert_eq!(edges, vec![1.0; 4]);
}

#[test]
fn test_sharp_boundary_high_response() {
    let w = 10;
    let h = 10;
    let mid = (w / 2) as usize;
    let mut pixels = vec![[0.0; 3]; (w * h) as usize];
    for y in 0..h as usize {
        for x in 0..w as usize {
            let i = y * (w as usize) + x;
            pixels[i] = if x < mid {
                [1.0, 0.0, 0.0]
            } else {
                [0.0, 0.0, 1.0]
            };
        }
    }
    let edges = edges_of(&pixels, w, h, 0.0);
    let left_flat = edges[3 * (w as usize) + (mid - 2)];
    let boundary = edges[3 * (w as usize) + (mid - 1)];
    let _right_flat = edges[3 * (w as usize) + mid];
    assert!(
        boundary > left_flat * 2.0,
        "boundary={} should be > 2× left_flat={}",
        boundary,
        left_flat
    );
    assert!(
        boundary > 0.1,
        "boundary={} should be clearly non-zero",
        boundary
    );
}

#[test]
fn test_at_helper() {
    let w: u32 = 4;
    let lab = vec![[s(0.0); 3]; (4 * 3) as usize];
    assert!(at(0, 0, w, &lab).is_some());
    assert!(at(3, 2, w, &lab).is_some());
    assert!(at(-1, 0, w, &lab).is_none());
    assert!(at(0, -1, w, &lab).is_none());
    assert!(at(4, 0, w, &lab).is_none());
    assert!(at(0, 3, w, &lab).is_none());
}

#[test]
fn at_reads_row_by_row() {
    let lab: Vec<[Scalar; 3]> = (0..6).map(|i| [s(i as f64); 3]).collect();
    assert_eq!(at(1, 1, 3, &lab).map(|v| f(v[0])), Some(4.0));
}

#[test]
fn fast_edges_count_the_border_as_greatest() {
    let colors: Vec<i32> = (0..9).collect();
    let gradient = |a: Around<i32>| {
        assert_eq!([a.nw, a.n, a.ne, a.w, a.e, a.sw, a.s, a.se], [0, 1, 2, 3, 5, 6, 7, 8]);
        s(10.0)
    };
    let curve = |m: Scalar, v: Scalar| s(f(v) / f(m));
    let map = detect_edges_fast(&colors, 3, 3, &gradient, &curve);
    assert!(map.iter().all(|&e| f(e) == 1.0));
    let flat = |_: Around<i32>| s(0.5);
    let map = detect_edges_fast(&colors, 3, 3, &flat, &curve);
    assert_eq!(f(map[4]), 0.5);
    assert_eq!(f(map[0]), 1.0);
}

#[test]
fn edge_strengths_stay_in_the_unit_range() {
    let colors = [0u8; 9];
    let gradient = |_: Around<u8>| s(5.0);
    let map = detect_edges_fast(&colors, 3, 3, &gradient, &|_: Scalar, v: Scalar| s(f(v) * 3.0));
    assert!(map.iter().all(|&e| f(e) == 1.0));
    let below = |_: Scalar, v: Scalar| s(-f(v));
    let map = detect_edges(&colors, 3, 3, &|p: u8| p, &gradient, &below);
    assert_eq!(f(map[4]), 0.0);
    assert_eq!(f(map[8]), 1.0);
    let thin = detect_edges_fast(&colors, 9, 1, &gradient, &below);
    assert!(thin.iter().all(|&e| f(e) == 1.0));
}

fn small_result() -> SegmentResult {
    let labels = vec![
        Some(0),
        Some(0),
        Some(1),
        Some(0),
        Some(0),
        Some(1),
        None,
        Some(7),
        Some(2),
    ];
    let mut regions = regions_from_labels(&labels, 3, 3);
    regions[1].cluster_id = 1;
    regions[2].cluster_id = 9;
    SegmentResult {
        regions,
        labels,
        palette: Palette {
            colors: vec![[1, 2, 3], [4, 5, 6]],
            counts: vec![4, 2],
        },
        edge_map: vec![s(0.0); 9],
        width: 3,
        height: 3,
    }
}

#[test]
fn overlays_show_regions_and_boundaries() {
    let r = small_result();
    let img = gen_colored_overlay(&r);
    assert_eq!((img.width, img.height), (3, 3));
    assert_eq!(img.get(0, 0), [1, 2, 3]);
    assert_eq!(img.get(2, 1), [4, 5, 6]);
    assert_eq!(img.get(0, 2), [0, 0, 0]);
    assert_eq!(img.get(1, 2), [0, 0, 0]);
    assert_eq!(img.get(2, 2), [0, 0, 0]);
    let edges = gen_boundary_overlay(&r.labels, 3, 3);
    assert_eq!(edges[0], [0, 0, 0, 0]);
    assert_eq!(edges[1], [20, 20, 20, 255]);
    assert_eq!(edges[2], [20, 20, 20, 255]);
    assert_eq!(edges[6], [0, 0, 0, 0]);
    let marks = boundary_marks(&r.labels, 3, 3);
    assert!(!marks[0] && marks[1] && marks[3] && !marks[6]);
}

#[test]
fn rendering_blends_regions_and_draws_lines() {
    let r = small_result();
    let original = vec![[100u8, 100, 100]; 9];
    let blend = |over: u8, under: u8| (over as f32 * 0.45 + under as f32 * 0.55).round() as u8;
    let out = render_segmented_png(&original, &r.labels, &r.palette, &r.regions, 3, 3, &blend);
    assert_eq!(out.get(0, 0), [55, 56, 56]);
    assert_eq!(out.get(1, 0), [20, 20, 20]);
    assert_eq!(out.get(0, 2), [55, 55, 55]);
}

#[test]
fn top_colours_come_by_area() {
    let r = small_result();
    let colors = top_colors(&r.regions, &r.palette);
    assert_eq!(colors, vec![[1, 2, 3], [4, 5, 6], [128, 128, 128]]);
    let many: Vec<Region> = (0..7)
        .map(|i| Region {
            id: i,
            cluster_id: i,
            area: 10 * (i % 3),
            sum_x: 0,
            sum_y: 0,
            bbox: (0, 0, 0, 0),
            pixel_count: 0,
        })
        .collect();
    let palette = Palette {
        colors: (0..7).map(|i| [i as u8; 3]).collect(),
        counts: vec![0; 7],
    };
    let colors = top_colors(&many, &palette);
    assert_eq!(colors, vec![[2; 3], [5; 3], [1; 3], [4; 3], [0; 3]]);
}

#[test]
fn test_default_values() {
    let p = SegmentParams::default();
    assert_eq!(p.preprocess_max_dim, 512);
    assert_eq!(p.min_region_area, 50);
    assert_eq!(f(p.min_cluster_area_ratio), 0.001);
    assert_eq!(f(p.edge_threshold), 0.15);
    assert_eq!(f(p.edge_split_strength), 0.4);
    assert_eq!(f(p.edge_gamma), 0.65);
    assert_eq!(f(p.edge_merge_strength), 0.05);
    assert_eq!(f(p.color_merge_distance), 8.0);
    assert_eq!(f(p.small_region_color_distance), 24.0);
    assert!(p.merge_small_regions);
}
