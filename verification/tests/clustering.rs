//! Clusters: octree, median cut, k-means, palettes, and clusters in space.

use color_extract::algorithms::{
    all_tasks, fit_palette, palette_plan, run_kmeans, run_minibatch, sort_by_lightness,
    train_batches, Algorithm, ColorSpace, Fit, MiniBatchError, PaletteColor, PaletteMethod, Step,
    TrainError,
};
use color_extract::background::{
    bfs_connected_bg, build_bg_candidate, build_flood_barrier, background_masks,
    mask_count, BackgroundFeatureInputs, BackgroundFloodBarrierParams, BackgroundParams,
};
use color_extract::border::{
    border_mask, border_prototypes, cluster_map, clusters_to_bg_mask, reassign_indices,
    score_clusters, Cutoff,
};
use color_extract::clusters::{merge_small_clusters, reduce_cluster_count};
use color_extract::impression::{choose_pixels, color_of_pixels, ColorChoice};
use color_extract::kmeans::{assign_points, iterate, seed_centroids};
use color_extract::median_cut::{
    dominant_bucket, longest_axis, median_cut, median_cut_recursive, Axes,
};
use color_extract::morphology::{clean_mask, closing, dilate, erode, opening};
use color_extract::octree::{
    color_code, dominant_leaf, octant_index_bit, octant_index_range, path_code, quantize,
};
use color_extract::order::stable_order;
use color_extract::params::{ColorPartitionParams, MorphologyParams};
use color_extract::partition::{median_cut_partition, Cluster, CutLimits, Spread};
use color_extract::sampling::{
    batch_rounds, count_up, draw_batch, sample_all, sample_grid, Lcg64,
};
use color_extract::scalar::Scalar;
use color_extract::selection::{
    count_members, dominant_cluster, group_samples, select_best_cluster, winner,
};
use color_extract::separation::{invert_mask, partition_and_separate, SeparationParams};
use color_extract::spatial::{
    cluster_baseline, cluster_pixels, compute_border_connected, finish_clusters, gather_sums,
    make_empty_cluster, Cluster4D, ClusterSums,
};
use color_extract::uf::Uf;

fn s(v: f64) -> Scalar {
    Scalar::new(v.to_bits())
}

fn f(v: Scalar) -> f64 {
    f64::from_bits(v.bits)
}

fn scalars(v: &[f64]) -> Vec<Scalar> {
    v.iter().map(|&x| s(x)).collect()
}

#[test]
fn joined_elements_share_a_class() {
    let mut uf = Uf::new(6);
    uf.union(4, 1);
    uf.union(5, 4);
    uf.union(0, 2);
    assert!(uf.same(1, 5));
    assert!(!uf.same(0, 1));
    assert_eq!(uf.find(1), uf.find(5));
    assert_eq!(uf.len(), 6);
    assert_eq!(uf.resolve(), (vec![0, 1, 0, 2, 1, 1], 3));
}

#[test]
fn sorting_is_stable() {
    assert_eq!(stable_order(&[3, 1, 3, 0, 1]), vec![3, 1, 4, 0, 2]);
    assert!(stable_order(&[]).is_empty());
}

#[test]
fn octants_follow_the_bits() {
    assert_eq!(octant_index_bit([0x80, 0, 0], 0), 4);
    assert_eq!(octant_index_bit([0, 0x40, 0xff], 1), 3);
    assert_eq!(octant_index_range([s(1.0), s(0.0), s(2.0)], [s(0.5); 3]), 5);
    assert_eq!(octant_index_range([s(0.5); 3], [s(0.5); 3]), 0);
    assert_eq!(color_code([255, 255, 255]), 0xff_ffff);
    assert_eq!(color_code([0x80, 0, 0]), 4 << 21);
    assert_eq!(path_code(&[4, 0, 0, 0, 0, 0, 0, 1]), (4 << 21) + 1);
}

#[test]
fn octrees_have_as_many_leaves_as_asked_for() {
    let colors: Vec<[u8; 3]> = (0..40u8).map(|i| [i * 6, 255 - i * 6, i * 3]).collect();
    let codes: Vec<u32> = colors.iter().map(|&c| color_code(c)).collect();
    for k in [1usize, 3, 10, 39] {
        let leaves = quantize(&codes, k);
        assert_eq!(leaves.len(), k);
    }
    let all = quantize(&codes, 100);
    assert_eq!(all.len(), 40);
    let counted: usize = all.iter().map(|l| l.pixels.len()).sum();
    assert_eq!(counted, 40);
    let two = quantize(&[color_code([0, 0, 0]), color_code([255; 3]), color_code([255; 3])], 2);
    assert_eq!(two[dominant_leaf(&two)].pixels.len(), 2);
}

fn width(lo: Scalar, hi: Scalar) -> Scalar {
    s(f(hi) - f(lo))
}

#[test]
fn median_cut_keeps_every_pixel() {
    let x = scalars(&[0.0, 10.0, 20.0, 30.0, 40.0]);
    let y = scalars(&[1.0, 1.0, 2.0, 1.0, 1.0]);
    let z = scalars(&[0.0; 5]);
    let axes = Axes {
        x: &x,
        y: &y,
        z: &z,
    };
    assert_eq!(longest_axis(&axes, &[0, 1, 2, 3, 4], &width), 0);
    let buckets = median_cut(&axes, 3, &width).unwrap();
    assert_eq!(buckets.len(), 3);
    let mut all: Vec<usize> = buckets.concat();
    all.sort();
    assert_eq!(all, vec![0, 1, 2, 3, 4]);
    let top = dominant_bucket(&buckets);
    assert!(buckets.iter().all(|b| b.len() <= buckets[top].len()));
    let none = Axes {
        x: &[],
        y: &[],
        z: &[],
    };
    assert!(median_cut(&none, 3, &width).is_none());
    let halves = median_cut_recursive(&axes, vec![0, 1, 2, 3, 4], 2, 0, &width);
    assert_eq!(halves, vec![vec![0, 1], vec![2, 3, 4]]);
}

fn summary(l: &[Scalar]) -> impl Fn(&Vec<usize>) -> f64 + '_ {
    move |indices: &Vec<usize>| {
        indices.iter().map(|&i| f(l[i])).sum::<f64>() / indices.len().max(1) as f64
    }
}

fn gap(a: &f64, b: &f64) -> Scalar {
    s((a - b).abs())
}

#[test]
fn partitions_stop_at_the_variance() {
    let l = scalars(&[0.0, 1.0, 100.0, 101.0]);
    let z = scalars(&[0.0; 4]);
    let lim = CutLimits {
        max_depth: 5,
        variance_threshold: s(10.0),
    };
    let mean = summary(&l);
    let spread = |m: &f64| Spread {
        l: s(1.0),
        a: s(0.0),
        b: s(0.0),
        total: if *m > 40.0 && *m < 60.0 {
            s(50.0)
        } else {
            s(0.5)
        },
    };
    let mut clusters: Vec<Cluster<f64>> = Vec::new();
    median_cut_partition(
        &l,
        &z,
        &z,
        vec![0, 1, 2, 3],
        0,
        &lim,
        &mean,
        &spread,
        &mut clusters,
    );
    assert_eq!(clusters.len(), 2);
    assert_eq!(clusters[0].indices, vec![0, 1, 2]);
    assert_eq!(clusters[1].indices, vec![3]);
    assert_eq!(clusters[1].summary, 101.0);
}

fn cluster(indices: &[usize], summary: f64) -> Cluster<f64> {
    Cluster {
        indices: indices.to_vec(),
        summary,
    }
}

#[test]
fn small_clusters_go_to_the_nearest() {
    let l = scalars(&[0.0, 0.0, 0.0, 50.0, 52.0, 51.0, 49.0]);
    let mean = summary(&l);
    let mut cs = vec![
        cluster(&[0, 1, 2], 0.0),
        cluster(&[3], 50.0),
        cluster(&[4, 5, 6], 50.6),
    ];
    merge_small_clusters(&mut cs, 2, &mean, &gap);
    assert_eq!(cs.len(), 2);
    let sizes: Vec<usize> = cs.iter().map(|c| c.indices.len()).collect();
    assert_eq!(sizes.iter().sum::<usize>(), 7);
    assert!(sizes.contains(&4));
    reduce_cluster_count(&mut cs, 1, &mean, &gap);
    assert_eq!(cs.len(), 1);
    assert_eq!(cs[0].indices.len(), 7);
}

#[test]
fn borders_are_bands() {
    let mask = border_mask(5, 4, 1);
    assert_eq!(mask.iter().filter(|&&m| m).count(), 14);
    assert!(!mask[6]);
    let thick = border_mask(5, 4, 2);
    assert!(thick.iter().all(|&m| m));
    let picks = border_prototypes(100, 100, 3);
    assert!(picks.len() <= 96 && !picks.is_empty());
    assert_eq!(picks[0], 0);
}

#[test]
fn clusters_become_masks() {
    let cs = vec![cluster(&[0, 2], 0.0), cluster(&[1], 1.0)];
    assert_eq!(cluster_map(&cs, 4), vec![Some(0), Some(1), Some(0), None]);
    let at_least = clusters_to_bg_mask(&cs, &scalars(&[0.5, 0.4]), 4, &Cutoff::AtLeast(s(0.5)));
    assert_eq!(at_least, vec![true, false, true, false]);
    let above = clusters_to_bg_mask(&cs, &scalars(&[0.5, 0.6]), 4, &Cutoff::Above(s(0.5)));
    assert_eq!(above, vec![false, true, false, false]);
    let border = vec![true, true, false, false];
    let score = |_: &f64, on: usize, all: usize| s(on as f64 / all as f64);
    let scores = score_clusters(&cs, &border, &score);
    assert_eq!(f(scores[0]), 0.5);
    assert_eq!(f(scores[1]), 1.0);
    let near = |i: usize, c: &f64| s((i as f64 / 3.0 - c).abs());
    let again = reassign_indices(cs, 4, &near);
    let sizes: Vec<usize> = again.iter().map(|c| c.indices.len()).collect();
    assert_eq!(sizes, vec![2, 2]);
}

#[test]
fn masks_are_cleaned() {
    let mut mask = vec![false; 49];
    for y in 2..5 {
        for x in 2..5 {
            mask[y * 7 + x] = true;
        }
    }
    assert_eq!(erode(&mask, 7, 7, 1).iter().filter(|&&m| m).count(), 1);
    assert_eq!(dilate(&mask, 7, 7, 1).iter().filter(|&&m| m).count(), 25);
    assert_eq!(opening(&mask, 7, 7, 1), mask);
    assert_eq!(closing(&mask, 7, 7, 1), mask);
    let mut speck = mask.clone();
    speck[0] = true;
    assert_eq!(opening(&speck, 7, 7, 1), mask);
    let p = MorphologyParams {
        open_radius: 1,
        close_radius: 0,
        erode_radius: 1,
    };
    assert_eq!(mask_count(&clean_mask(speck, 7, 7, &p)), 1);
    assert_eq!(mask_count(&invert_mask(&mask)), 40);
}

#[test]
fn the_background_grows_from_the_border() {
    let border_bg = scalars(&[0.9, 0.9, 0.9, 0.2, 0.9, 0.2, 0.9, 0.9, 0.9]);
    let candidate = build_bg_candidate(&border_bg, s(0.5));
    assert_eq!(mask_count(&candidate), 7);
    let barrier = vec![false; 9];
    let link = |_: usize, _: usize| s(0.0);
    let bg = bfs_connected_bg(&candidate, &barrier, 3, 3, 1, s(0.1), &link);
    assert!(bg[0] && bg[4] && bg[8]);
    assert!(!bg[3]);
    let far = |_: usize, _: usize| s(1.0);
    let only = bfs_connected_bg(&candidate, &barrier, 3, 3, 1, s(0.1), &far);
    assert!(only[0] && !only[4]);
    let zeros = scalars(&[0.0; 9]);
    let strong = scalars(&[1.0; 9]);
    let features = BackgroundFeatureInputs {
        dct: &zeros,
        lab_grad: &strong,
        spectral: &zeros,
        local_light: &zeros,
    };
    let params = BackgroundFloodBarrierParams {
        enabled: true,
        color_threshold: s(0.5),
        barrier_color_relax_threshold: s(0.95),
        grad_stop: s(0.5),
        dct_stop: s(0.5),
        local_light_stop: s(0.5),
        spectral_stop: s(0.5),
    };
    let walls = build_flood_barrier(&features, &border_bg, &params);
    assert!(walls[3]);
}

fn background_params() -> BackgroundParams {
    BackgroundParams {
        partition: ColorPartitionParams {
            border_band: 1,
            min_cluster_area_ratio: s(0.0),
            max_bg_ratio: s(1.0),
            ..ColorPartitionParams::default()
        },
        morphology: MorphologyParams {
            open_radius: 0,
            close_radius: 0,
            erode_radius: 0,
        },
        flood_barrier: BackgroundFloodBarrierParams {
            enabled: false,
            color_threshold: s(0.5),
            barrier_color_relax_threshold: s(0.9),
            grad_stop: s(0.5),
            dct_stop: s(0.5),
            local_light_stop: s(0.5),
            spectral_stop: s(0.5),
        },
    }
}

#[test]
fn a_framed_square_is_foreground() {
    let n = 36;
    let inside = |i: usize| (2..4).contains(&(i % 6)) && (2..4).contains(&(i / 6));
    let l: Vec<Scalar> = (0..n).map(|i| s(if inside(i) { 90.0 } else { 10.0 })).collect();
    let z = scalars(&vec![0.0; n]);
    let border_bg: Vec<Scalar> = (0..n).map(|i| s(if inside(i) { 0.1 } else { 0.9 })).collect();
    let features = BackgroundFeatureInputs {
        dct: &z,
        lab_grad: &z,
        spectral: &z,
        local_light: &z,
    };
    let params = background_params();
    let mean = summary(&l);
    let spread = |m: &f64| Spread {
        l: s(1.0),
        a: s(0.0),
        b: s(0.0),
        total: s(if *m > 10.0 && *m < 90.0 { 5.0 } else { 0.0 }),
    };
    let score = |_: &f64, on: usize, all: usize| s(on as f64 / all as f64);
    let link = |i: usize, j: usize| s((f(l[i]) - f(l[j])).abs());
    let ratio = |a: usize, b: usize| s(a as f64 / b as f64);
    let masks = background_masks(
        &l, &z, &z, &border_bg, &features, 6, 6, &params, 1, &mean, &spread, &gap, &score, &link,
        &ratio,
    );
    assert_eq!(masks.bg_mask.len(), n);
    for i in 0..n {
        assert_eq!(masks.bg_mask[i], !inside(i));
    }
    let p = SeparationParams {
        enabled: true,
        max_clusters: 8,
        max_depth: 4,
        variance_threshold: s(0.1),
        border_band: 1,
        bg_score_threshold: s(0.3),
        morphology: MorphologyParams {
            open_radius: 0,
            close_radius: 0,
            erode_radius: 0,
        },
    };
    let affinity = |i: usize, c: &f64| s((f(l[i]) - c).abs());
    let r = partition_and_separate(
        &l, &z, &z, 6, 6, &p, 1, &mean, &spread, &gap, &affinity, &score, &link,
    );
    let total: usize = r.clusters.iter().map(|c| c.indices.len()).sum();
    assert_eq!(total, n);
    for i in 0..n {
        assert_eq!(r.foreground[i], !r.bg_mask_morph[i]);
    }
}

#[test]
fn draws_are_reproducible() {
    let mut a = Lcg64::new(42);
    let mut b = Lcg64::new(42);
    let first = a.next_draw();
    assert_eq!(first, b.next_draw());
    let state = 42u64
        .wrapping_add(1442695040888963407)
        .wrapping_mul(6364136223846793005)
        .wrapping_add(1442695040888963407);
    assert_eq!(first, state >> 11);
    assert!(first < 1 << 53);
}

#[test]
fn samples_lie_on_the_grid() {
    let mut weights = vec![1.0; 16];
    weights[0] = 0.0;
    let w = scalars(&weights);
    assert_eq!(sample_grid(&w, 4, 4, 2), vec![2, 8, 10]);
    assert_eq!(sample_grid(&w, 4, 4, 0).len(), 15);
    assert_eq!(sample_all(&w).len(), 15);
    assert_eq!(choose_pixels(&w, 4, 4, "stride", 2), vec![2, 8, 10]);
    assert_eq!(choose_pixels(&w, 4, 4, "all", 2).len(), 15);
}

#[test]
fn batches_are_shuffled() {
    let batch = draw_batch(5000, 42);
    assert_eq!(batch.len(), 2048);
    assert_ne!(batch, count_up(2048));
    let mut sorted = batch.clone();
    sorted.sort();
    sorted.dedup();
    assert_eq!(sorted.len(), 2048);
    assert!(sorted.iter().all(|&i| i < 5000));
    assert_eq!(draw_batch(5000, 42), batch);
    assert_ne!(draw_batch(5000, 43), batch);
    let mut few = draw_batch(10, 1);
    few.sort();
    assert_eq!(few, count_up(10));
    assert_eq!(batch_rounds(1), 5);
    assert_eq!(batch_rounds(2048 * 40), 10);
    assert_eq!(batch_rounds(2048 * 1000), 20);
}

#[test]
fn the_last_of_equal_winners_wins() {
    assert_eq!(winner(&scalars(&[1.0, 3.0, 3.0, 2.0])), Some(2));
    assert_eq!(winner(&[]), None);
    assert_eq!(dominant_cluster(&[2, 5, 5, 1]), 2);
    let assign = [0, 1, 0, 2, 7];
    assert_eq!(count_members(&assign, 3), vec![2, 1, 1]);
    assert_eq!(
        group_samples(&assign, &[10, 11, 12, 13, 14], 3),
        vec![vec![10, 12], vec![11], vec![13]]
    );
    let score = |c: &f64, g: &Vec<usize>| s(*c * g.len() as f64);
    let (best, scores) =
        select_best_cluster(&assign, &[10, 11, 12, 13, 14], &[1.0, 5.0, 0.5], &score).unwrap();
    assert_eq!(best, 1);
    assert_eq!(scores.iter().map(|&v| f(v)).collect::<Vec<_>>(), vec![2.0, 5.0, 0.5]);
    assert!(select_best_cluster(&[], &[], &[1.0], &score).is_none());
}

fn pick(ds: &Vec<Scalar>, draw: u64) -> Option<usize> {
    let total: f64 = ds.iter().map(|&d| f(d)).sum();
    if total <= 0.0 {
        return None;
    }
    let mut r = draw as f64 / 9007199254740992.0 * total;
    for (i, &d) in ds.iter().enumerate() {
        r -= f(d);
        if r <= 0.0 {
            return Some(i);
        }
    }
    Some(ds.len() - 1)
}

fn square_gap(a: &f64, b: &f64) -> Scalar {
    s((a - b) * (a - b))
}

#[test]
fn clusters_settle() {
    let pts = vec![0.0, 1.0, 10.0, 11.0];
    let seeds = seed_centroids(&pts, 2, 42, &square_gap, &pick);
    assert_eq!(seeds.len(), 2);
    assert_eq!(seeds[0], 0.0);
    let mut assign = vec![0; 4];
    assert!(assign_points(&pts, &vec![0.0, 10.0], &mut assign, &square_gap));
    assert_eq!(assign, vec![0, 0, 1, 1]);
    assert!(!assign_points(&pts, &vec![0.0, 10.0], &mut assign, &square_gap));
    let update = |a: &Vec<usize>, c: &Vec<f64>| {
        (0..c.len())
            .map(|j| {
                let own: Vec<f64> = (0..4).filter(|&i| a[i] == j).map(|i| pts[i]).collect();
                own.iter().sum::<f64>() / own.len() as f64
            })
            .collect::<Vec<f64>>()
    };
    let (assign, centers) = iterate(&pts, vec![0.0, 10.0], 20, &square_gap, &update);
    assert_eq!(assign, vec![0, 0, 1, 1]);
    assert_eq!(centers, vec![0.5, 10.5]);
    let same = vec![7.0; 5];
    assert_eq!(seed_centroids(&same, 3, 1, &square_gap, &pick), vec![7.0; 3]);
}

#[test]
fn the_best_cluster_gives_the_colour() {
    let pts = vec![0.0, 1.0, 10.0, 11.0, 12.0];
    let indices = vec![3, 4, 5, 6, 7];
    let update = |a: &Vec<usize>, c: &Vec<f64>| {
        (0..c.len())
            .map(|j| {
                let own: Vec<f64> = (0..5).filter(|&i| a[i] == j).map(|i| pts[i]).collect();
                if own.is_empty() {
                    c[j]
                } else {
                    own.iter().sum::<f64>() / own.len() as f64
                }
            })
            .collect::<Vec<f64>>()
    };
    let mean = |own: &Vec<usize>| (own.len() as f64, s(1.5));
    let score = |_: &f64, g: &Vec<usize>| s(g.len() as f64);
    let r = color_of_pixels(
        &pts, &indices, 2, 10, 42, &square_gap, &pick, &update, &mean, &score,
    );
    match r {
        ColorChoice::Center(c, _, top) => {
            assert_eq!(c, 11.0);
            assert_eq!(f(top), 3.0);
        }
        _ => panic!("a cluster should win"),
    }
    let r = color_of_pixels(
        &pts, &indices, 5, 10, 42, &square_gap, &pick, &update, &mean, &score,
    );
    assert!(matches!(r, ColorChoice::Mean(v, w) if v == 5.0 && f(w) == 1.5));
    let r = color_of_pixels(
        &vec![], &vec![], 2, 10, 42, &square_gap, &pick, &update, &mean, &score,
    );
    assert!(matches!(r, ColorChoice::Nothing));
    let r = color_of_pixels(
        &pts, &indices, 0, 10, 42, &square_gap, &pick, &update, &mean, &score,
    );
    assert!(matches!(r, ColorChoice::Center(c, 0, _) if c == 0.0));
}

#[test]
fn algorithms_and_spaces_have_names() {
    let names: Vec<&str> = Algorithm::all().iter().map(|a| a.name()).collect();
    assert_eq!(
        names,
        vec!["KMeans++", "Mini-Batch KMeans", "Median Cut", "Octree Quantization"]
    );
    let names: Vec<&str> = ColorSpace::all().iter().map(|a| a.name()).collect();
    assert_eq!(names, vec!["RGB", "CIELAB", "Oklab", "HSL", "CAM16"]);
    let tasks = all_tasks(2);
    assert_eq!(tasks.len(), 40);
    assert_eq!(tasks[7].image, 0);
    assert_eq!(tasks[7].algorithm, Algorithm::MiniBatchKMeans);
    assert_eq!(tasks[7].space, ColorSpace::Oklab);
    assert_eq!(tasks[20].image, 1);
}

fn paint(c: &f64, members: usize, n: usize) -> PaletteColor {
    PaletteColor {
        rgb: [*c as u8; 3],
        lab_l: s(*c),
        proportion: s(members as f64 / n as f64),
    }
}

#[test]
fn palettes_go_from_dark_to_light() {
    let fit = Fit {
        assignments: vec![0, 1, 1, 2],
        centers: vec![80.0, 20.0, 50.0],
    };
    let r = fit_palette(&fit, &paint);
    let ls: Vec<f64> = r.palette.iter().map(|p| f(p.lab_l)).collect();
    assert_eq!(ls, vec![20.0, 50.0, 80.0]);
    assert_eq!(r.dominant.hex(), "#141414");
    assert_eq!(f(r.dominant.proportion), 0.5);
    let mut p = r.palette.clone();
    p.reverse();
    sort_by_lightness(&mut p);
    assert_eq!(p, r.palette);
}

#[test]
fn no_pixels_give_no_palette() {
    let blank = paint(&0.0, 0, 1);
    let cluster = |k: usize| -> Result<Fit<f64>, String> {
        Ok(Fit {
            assignments: vec![0, 1, 0],
            centers: (0..k).map(|i| i as f64).collect(),
        })
    };
    let r = run_kmeans(0, 10, blank, &cluster, &paint).unwrap();
    assert!(r.palette.is_empty());
    assert_eq!(r.dominant, blank);
    let r = run_kmeans(3, 10, blank, &cluster, &paint).unwrap();
    assert_eq!(r.palette.len(), 3);
    let fails = |_: usize| -> Result<Fit<f64>, String> { Err("bad".to_string()) };
    assert_eq!(run_kmeans(3, 10, blank, &fails, &paint).unwrap_err(), "bad");
}

#[test]
fn training_stops_when_the_model_settles() {
    let fit = |m: Option<Vec<usize>>, b: usize| -> Step<Vec<usize>, String> {
        let mut v = m.unwrap_or_default();
        v.push(b);
        if v.len() == 4 {
            Step::Converged(v)
        } else {
            Step::NotConverged(v)
        }
    };
    assert_eq!(train_batches(3, 10, &fit).unwrap(), vec![0, 1, 2, 0]);
    assert_eq!(train_batches(3, 2, &fit).unwrap(), vec![0, 1]);
    assert!(matches!(train_batches(0, 10, &fit), Err(TrainError::NoBatch)));
    let at_once = |m: Option<u32>, _: usize| -> Step<u32, String> {
        Step::Converged(m.unwrap_or(0) + 1)
    };
    assert_eq!(train_batches(3, 10, &at_once).unwrap(), 2);
    let init = |_: Option<u32>, _: usize| -> Step<u32, String> { Step::Failed("x".to_string()) };
    assert!(matches!(train_batches(3, 10, &init), Err(TrainError::Init(e)) if e == "x"));
    let later = |m: Option<u32>, _: usize| -> Step<u32, String> {
        match m {
            None => Step::NotConverged(1),
            Some(_) => Step::Failed("y".to_string()),
        }
    };
    assert!(matches!(train_batches(3, 10, &later), Err(TrainError::Update(e)) if e == "y"));
}

#[test]
fn batches_give_a_palette() {
    let fit = |m: Option<u32>, _: usize| -> Step<u32, String> {
        Step::NotConverged(m.unwrap_or(0) + 1)
    };
    let predict = |m: &u32| Fit {
        assignments: vec![0; 4096],
        centers: vec![*m as f64],
    };
    let r = run_minibatch(4096, 1, &fit, &predict, &paint).unwrap();
    assert_eq!(f(r.palette[0].lab_l), 5.0);
    assert!(matches!(
        run_minibatch(0, 1, &fit, &predict, &paint),
        Err(MiniBatchError::NoPixels)
    ));
    assert!(matches!(
        run_minibatch(2047, 1, &fit, &predict, &paint),
        Err(MiniBatchError::Train(TrainError::NoBatch))
    ));
}

#[test]
fn palettes_are_planned_by_name() {
    assert_eq!(palette_plan(0, s(1.0), 5, 9, "octree"), None);
    assert_eq!(palette_plan(9, s(1e-11), 5, 9, "octree"), None);
    assert_eq!(
        palette_plan(9, s(4.0), 5, 4, "octree"),
        Some((PaletteMethod::Octree, 4))
    );
    assert_eq!(
        palette_plan(9, s(4.0), 5, 1, "mediancut"),
        Some((PaletteMethod::MedianCut, 2))
    );
    assert_eq!(
        palette_plan(9, s(9.0), 3, 9, "minibatch"),
        Some((PaletteMethod::MiniBatch, 3))
    );
    assert_eq!(
        palette_plan(9, s(9.0), 3, 9, "anything"),
        Some((PaletteMethod::KMeans, 3))
    );
}

#[test]
fn clusters_are_connected_to_the_rim() {
    let mut assign = vec![0usize; 25];
    assign[12] = 1;
    assign[6] = 1;
    assign[1] = 1;
    let counts = compute_border_connected(&assign, 5, 5, 2);
    assert_eq!(counts, vec![22, 2]);
    let sums = gather_sums(&assign, 5, 5, 2, 0usize, &|a: usize, i: usize| a + i);
    assert_eq!(sums[1].count, 3);
    assert_eq!(sums[1].edge_count, 1);
    assert_eq!(sums[1].border_connected, 2);
    assert_eq!(sums[1].sums, 19);
}

fn draft(l: &f64, sums: &ClusterSums<usize>) -> Cluster4D {
    Cluster4D {
        lab_l: s(*l),
        chroma: s(1.0),
        proportion: s(sums.count as f64),
        ..make_empty_cluster()
    }
}

fn locate(c: &Cluster4D, sums: &ClusterSums<usize>) -> Cluster4D {
    Cluster4D {
        border_connected_ratio: s(sums.border_connected as f64 / sums.count as f64),
        ..*c
    }
}

fn rate(i: usize, all: &Vec<Cluster4D>) -> Cluster4D {
    Cluster4D {
        dominant_score: all[i].proportion,
        ..all[i]
    }
}

fn damp(v: Scalar) -> Scalar {
    s(f(v) * 0.15)
}

#[test]
fn a_white_background_does_not_dominate() {
    let mut assign = vec![0usize; 25];
    for i in [6, 7, 8, 11, 12, 13] {
        assign[i] = 1;
    }
    let fit = Fit {
        assignments: assign,
        centers: vec![95.0, 40.0, 60.0],
    };
    let r = finish_clusters(
        &fit,
        5,
        5,
        0usize,
        &|a: usize, _: usize| a + 1,
        &draft,
        &locate,
        &rate,
        &damp,
    );
    let ls: Vec<f64> = r.clusters.iter().map(|c| f(c.lab_l)).collect();
    assert_eq!(ls, vec![40.0, 60.0, 95.0]);
    assert_eq!(f(r.dominant.lab_l), 40.0);
    assert_eq!(f(r.clusters[2].dominant_score), 19.0 * 0.15);
    assert_eq!(f(r.clusters[1].dominant_score), 0.0);
}

#[test]
fn clustering_trains_on_all_or_on_a_batch() {
    let cluster = |t: &Vec<usize>, k: usize| -> Result<Fit<f64>, usize> {
        if t.len() == 2048 {
            return Err(t[0]);
        }
        Ok(Fit {
            assignments: vec![0; 4096],
            centers: (0..k).map(|i| i as f64).collect(),
        })
    };
    let run = |k: usize, minibatch: bool| {
        cluster_pixels(
            4096,
            k,
            42,
            64,
            64,
            minibatch,
            0usize,
            &cluster,
            &|a: usize, _: usize| a,
            &draft,
            &locate,
            &rate,
            &damp,
        )
    };
    assert_eq!(run(3, false).unwrap().clusters.len(), 3);
    assert_eq!(run(3, true).unwrap_err(), draw_batch(4096, 42)[0]);
    let none = run(0, true).unwrap();
    assert!(none.clusters.is_empty());
    assert_eq!(none.dominant, make_empty_cluster());
    assert_eq!(none.dominant.hex(), "#000000");
    let plain = |c: &f64, m: usize, n: usize| Cluster4D {
        lab_l: s(*c),
        proportion: s(m as f64 / n as f64),
        ..make_empty_cluster()
    };
    let base = cluster_baseline(4096, 3, 42, false, &cluster, &plain).unwrap();
    assert_eq!(f(base.dominant.proportion), 1.0);
    assert_eq!(base.clusters.len(), 3);
}
