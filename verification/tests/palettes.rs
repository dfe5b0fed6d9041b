//! Palettes: foreground clusters, buckets, octrees, and the colour of regions.

use color_extract::algorithms::{run_median_cut, run_octree, PaletteColor};
use color_extract::foreground::{
    cluster_palette, draw_centroids, extract_palette, kmeans_pp, median_cut_palette,
};
use color_extract::impression::{kmeans_impression_color, kmeans_weighted_color};
use color_extract::median_cut::Axes;
use color_extract::octree::color_code;
use color_extract::scalar::Scalar;
use color_extract::segfeat::{
    apply_segment_foreground_prior, region_color_from_scores, RegionColorResult, RegionFeature,
    SegmentFeatureResult,
};
use color_extract::thumbs::PaletteEntry;
use rand::{Rng, RngCore, SeedableRng};

fn s(v: f64) -> Scalar {
    Scalar::new(v.to_bits())
}

fn f(v: Scalar) -> f64 {
    f64::from_bits(v.bits)
}

fn gap(a: &f64, b: &f64) -> Scalar {
    s((a - b) * (a - b))
}

fn farthest(ds: &Vec<Scalar>, _draw: u64) -> Option<usize> {
    let mut best = 0;
    for i in 0..ds.len() {
        if f(ds[i]) > f(ds[best]) {
            best = i;
        }
    }
    if f(ds[best]) > 0.0 {
        Some(best)
    } else {
        None
    }
}

fn entry(center: &f64, members: &Vec<usize>) -> PaletteEntry {
    PaletteEntry {
        rgb: [s(*center); 3],
        hex: format!("{members:?}"),
        proportion: s(members.len() as f64),
    }
}

fn means(pts: &[f64]) -> impl Fn(&Vec<usize>, &Vec<f64>) -> Vec<f64> + '_ {
    move |assign, centers| {
        (0..centers.len())
            .map(|c| {
                let of: Vec<f64> = (0..pts.len())
                    .filter(|&i| assign[i] == c)
                    .map(|i| pts[i])
                    .collect();
                if of.is_empty() {
                    centers[c]
                } else {
                    of.iter().sum::<f64>() / of.len() as f64
                }
            })
            .collect()
    }
}

fn width(lo: Scalar, hi: Scalar) -> Scalar {
    s(f(hi) - f(lo))
}

fn describe(members: &Vec<usize>, weighted: bool) -> PaletteEntry {
    PaletteEntry {
        rgb: [s(members[0] as f64); 3],
        hex: format!("{members:?}"),
        proportion: s(if weighted { 1.0 } else { 0.0 }),
    }
}

#[test]
fn centroids_are_drawn_until_none_is_left() {
    let pts = [0.0, 0.0, 5.0, 9.0];
    let draws = [7, 8, 9, 10];
    assert_eq!(
        draw_centroids(&pts, 4, 2, &draws, &gap, &farthest),
        vec![5.0, 0.0, 9.0]
    );
    assert_eq!(
        draw_centroids(&pts, 2, 99, &draws, &gap, &farthest),
        vec![0.0, 9.0]
    );
    let echo = |_: &Vec<Scalar>, draw: u64| Some(draw as usize % 4);
    assert_eq!(
        draw_centroids(&pts, 3, 1, &draws, &gap, &echo),
        vec![0.0, 0.0, 0.0 + pts[9 % 4]]
    );
}

#[test]
fn clusters_of_the_foreground_settle() {
    let pts = [0.0, 1.0, 10.0, 11.0];
    let palette = cluster_palette(
        &pts,
        2,
        &[0, 0],
        &|_| 0,
        &gap,
        &farthest,
        &means(&pts),
        &entry,
    );
    assert_eq!(palette.len(), 2);
    assert_eq!(f(palette[0].rgb[0]), 0.5);
    assert_eq!(f(palette[1].rgb[0]), 10.5);
    assert_eq!(palette[0].hex, "[0, 1]");
    assert_eq!(palette[1].hex, "[2, 3]");
}

#[test]
fn the_generator_gives_the_draws() {
    let pts: Vec<f64> = (0..97).map(|i| i as f64).collect();
    let mut rng = rand_xoshiro::Xoshiro256Plus::seed_from_u64(42);
    let numbers: Vec<u64> = (0..3).map(|_| rng.next_u64()).collect();
    let mut again = rand_xoshiro::Xoshiro256Plus::seed_from_u64(42);
    let unit: f64 = again.gen();
    assert_eq!(unit, (numbers[0] >> 11) as f64 / (1u64 << 53) as f64);
    let keep = |_: &Vec<usize>, c: &Vec<f64>| c.clone();
    let at = |d: u64| d as usize % 97;
    let next = |_: &Vec<Scalar>, d: u64| Some(at(d));
    let palette = kmeans_pp(&pts, 3, &at, &gap, &next, &keep, &entry);
    let centers: Vec<f64> = palette.iter().map(|e| f(e.rgb[0])).collect();
    let expected: Vec<f64> = numbers.iter().map(|&d| at(d) as f64).collect();
    assert_eq!(centers, expected);
}

#[test]
fn no_pixels_have_no_clusters() {
    let none: [f64; 0] = [];
    let keep = |_: &Vec<usize>, c: &Vec<f64>| c.clone();
    assert!(kmeans_pp(&none, 3, &|_| 0, &gap, &farthest, &keep, &entry).is_empty());
    assert!(kmeans_pp(&[1.0], 0, &|_| 0, &gap, &farthest, &keep, &entry).is_empty());
    assert_eq!(
        kmeans_pp(&[1.0], 5, &|_| 0, &gap, &farthest, &keep, &entry).len(),
        1
    );
}

#[test]
fn palettes_are_extracted_by_the_named_method() {
    let pts = [4.0, 1.0, 3.0, 2.0];
    let x: Vec<Scalar> = pts.iter().map(|&v| s(v)).collect();
    let zero = vec![s(0.0); 4];
    let axes = Axes {
        x: &x,
        y: &zero,
        z: &zero,
    };
    let run = |algorithm: &str, total: f64, colors: usize| {
        extract_palette(
            &pts,
            &axes,
            s(total),
            total as usize,
            colors,
            algorithm,
            &|_| 0,
            &gap,
            &farthest,
            &means(&pts),
            &entry,
            &width,
            &describe,
        )
    };
    let hexes = |p: &Vec<PaletteEntry>| -> Vec<String> { p.iter().map(|e| e.hex.clone()).collect() };
    let halves = run("mediancut", 4.0, 2);
    assert_eq!(hexes(&halves), ["[1, 3]", "[2, 0]"]);
    assert_eq!(f(halves[0].proportion), 1.0);
    let uniform = run("octree", 4.0, 2);
    assert_eq!(hexes(&uniform), hexes(&halves));
    assert_eq!(f(uniform[0].proportion), 0.0);
    assert_eq!(hexes(&run("kmeanspp", 4.0, 2)), ["[0, 2]", "[1, 3]"]);
    assert_eq!(hexes(&run("minibatch", 4.0, 2)), ["[0, 2]", "[1, 3]"]);
    assert_eq!(hexes(&run("?", 4.0, 2)), ["[0, 2]", "[1, 3]"]);
    assert_eq!(run("mediancut", 4.0, 0).len(), 2);
    assert_eq!(run("mediancut", 3.0, 9).len(), 3);
    assert!(run("mediancut", 0.0, 2).is_empty());
    assert!(run("kmeanspp", 0.0, 2).is_empty());
    assert_eq!(
        hexes(&median_cut_palette(&axes, 9, true, &width, &describe)),
        ["[1]", "[3]", "[2]", "[0]"]
    );
    assert!(median_cut_palette(&axes, 0, true, &width, &describe).is_empty());
}

fn swatch(members: &Vec<usize>, total: usize) -> PaletteColor {
    PaletteColor {
        rgb: [members[0] as u8; 3],
        lab_l: s(100.0 - members[0] as f64),
        proportion: s(members.len() as f64 / total as f64),
    }
}

#[test]
fn buckets_give_a_palette() {
    let x: Vec<Scalar> = [1.0, 2.0, 9.0, 10.0, 11.0].iter().map(|&v| s(v)).collect();
    let zero = vec![s(0.0); 5];
    let axes = Axes {
        x: &x,
        y: &zero,
        z: &zero,
    };
    let r = run_median_cut(&axes, 2, &width, &swatch).expect("pixels");
    let first: Vec<u8> = r.palette.iter().map(|c| c.rgb[0]).collect();
    assert_eq!(first, [2, 0]);
    assert_eq!(r.dominant.rgb, [2; 3]);
    assert_eq!(f(r.dominant.proportion), 0.6);
    let none = Axes {
        x: &[],
        y: &[],
        z: &[],
    };
    let e = run_median_cut(&none, 2, &width, &swatch).unwrap_err();
    assert_eq!(e.message(), "Median Cut requires at least one pixel");
}

#[test]
fn leaves_give_a_palette() {
    let blank = swatch(&vec![77], 1);
    let codes: Vec<u32> = [[255, 0, 0], [0, 0, 255], [255, 0, 0], [0, 255, 0]]
        .into_iter()
        .map(color_code)
        .collect();
    let r = run_octree(&codes, 10, blank, &swatch);
    assert_eq!(r.palette.len(), 3);
    assert_eq!(r.dominant.rgb, [0; 3]);
    assert_eq!(f(r.dominant.proportion), 0.5);
    for pair in r.palette.windows(2) {
        assert!(f(pair[0].lab_l) <= f(pair[1].lab_l));
    }
    let r = run_octree(&[], 10, blank, &swatch);
    assert!(r.palette.is_empty());
    assert_eq!(r.dominant, blank);
}

#[test]
fn weighted_colours_come_with_their_score() {
    let rgb = [0.0, 5.0, 10.0, 11.0, 50.0];
    let mean = |v: &Vec<usize>| {
        (
            v.iter().map(|&i| rgb[i]).sum::<f64>() / v.len() as f64,
            s(v.len() as f64),
        )
    };
    let score = |_: &f64, g: &Vec<usize>| s(g.len() as f64);
    let run = |indices: Vec<usize>, k: usize| {
        let pts: Vec<f64> = indices.iter().map(|&i| rgb[i]).collect();
        let update = means(&pts);
        let both = kmeans_weighted_color(
            &rgb, &indices, -1.0, k, 10, 42, &gap, &farthest, &update, &mean, &score,
        );
        let color = kmeans_impression_color(
            &rgb, &indices, -1.0, k, 10, 42, &gap, &farthest, &update, &mean, &score,
        );
        assert_eq!(both.0, color);
        (both.0, f(both.1))
    };
    assert_eq!(run(vec![], 2), (-1.0, 0.0));
    assert_eq!(run(vec![0, 2], 2), (5.0, 2.0));
    assert_eq!(run(vec![0, 2, 3], 2), (10.5, 2.0));
    assert_eq!(run(vec![0, 2, 3, 4], 1), (0.0, 4.0));
}

fn region(id: usize, score: f64) -> RegionFeature {
    let zero = s(0.0);
    RegionFeature {
        id,
        cluster_id: id,
        area: 1,
        area_ratio: zero,
        border_ratio: zero,
        center_prior: zero,
        saliency_mean: zero,
        saliency_peak: zero,
        edge_mean: zero,
        border_color_similarity: zero,
        color_stability: zero,
        bg_probability: zero,
        subject_confidence: zero,
        color_score: s(score),
        mean_rgb: [s(id as f64); 3],
    }
}

#[test]
fn the_best_region_leads() {
    let regions = vec![region(0, 0.2), region(1, 0.0), region(2, 0.9), region(3, 0.9)];
    let first = |r: &Vec<RegionFeature>, at: &Vec<usize>| (r[at[0]].mean_rgb, r[at[0]].color_score);
    let c = region_color_from_scores(&regions, 1, &first);
    assert_eq!(c.contributing_regions, vec![2]);
    assert_eq!(f(c.rgb[0]), 2.0);
    assert_eq!(f(c.score), 0.9);
}

#[test]
fn segments_correct_the_foreground() {
    let segment = SegmentFeatureResult {
        labels: vec![Some(0), Some(0)],
        regions: vec![region(0, 0.5)],
        region_id_map: vec![s(0.0); 2],
        boundary_map: vec![s(0.0); 2],
        bg_probability: vec![s(0.25), s(0.5)],
        saliency: vec![s(0.1), s(0.2)],
        subject_confidence: vec![s(0.75)],
        region_color: RegionColorResult {
            rgb: [s(0.0); 3],
            score: s(0.5),
            contributing_regions: vec![0],
        },
    };
    let blend = |fg: Scalar, bg: Scalar, subject: Scalar| s(f(fg) + 10.0 * f(bg) + 100.0 * f(subject));
    let out = apply_segment_foreground_prior(&[s(1.0), s(2.0), s(3.0)], &segment, &blend);
    let out: Vec<f64> = out.into_iter().map(f).collect();
    assert_eq!(out, [78.5, 7.0, 13.0]);
    let c = segment.weight_context();
    assert_eq!((c.region_count, c.labels.len()), (1, 2));
    assert_eq!(f(c.saliency[1]), 0.2);
    assert_eq!(f(c.bg_probability[1]), 0.5);
    let d = segment.diagnostics(2, 1);
    assert_eq!((d.width, d.height, d.region_count), (2, 1, 1));
    assert_eq!(d.region_color.contributing_regions, vec![0]);
    assert_eq!(d.regions[0].id, 0);
}
