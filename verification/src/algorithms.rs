//! The algorithms and colour spaces of palette extraction, and what turns
//! clusters into a palette.

use std::time::Duration;
use vstd::prelude::*;
use vstd::string::*;
use crate::background::every_pixel;
use crate::median_cut::{
    contents, cut_largest, dominant_bucket, is_width, largest, median_cut, Axes,
};
use crate::octree::{
    cell_of, codes_below, codes_wf, distinct_lists, dominant_leaf, ints, is_quantised, pow8,
    quantize, OctreeLeaf,
};
use crate::octree_pixels::{leaf_total, leaves_hold_few};
use crate::order::{key_order, stable_order};
use crate::quantile::{all_numbers, ordinals};
use crate::sampling::{batch_rounds, rounds_for, BATCH_SIZE};
use crate::scalar::Scalar;
use crate::selection::{count_members, dominant_cluster, fullest, members_of};
use crate::text::{hex_text, rgb_to_hex};
use crate::timing::{no_time, now, since};

verus! {

/// An algorithm that extracts a palette.
#[derive(Clone, Copy, Debug, PartialEq, Eq, Hash, Structural)]
pub enum Algorithm {
    KMeansPlusPlus,
    MiniBatchKMeans,
    MedianCut,
    Octree,
}

impl Algorithm {
    /// All algorithms.
    pub fn all() -> (list: [Algorithm; 4])
        ensures
            list@ == all_algorithms(),
    {
        let list = [
            Algorithm::KMeansPlusPlus,
            Algorithm::MiniBatchKMeans,
            Algorithm::MedianCut,
            Algorithm::Octree,
        ];
        assert(list@ =~= all_algorithms());
        list
    }

    /// The algorithm's name.
    pub fn name(&self) -> (s: &'static str)
        ensures
            s@ == match *self {
                Algorithm::KMeansPlusPlus => "KMeans++"@,
                Algorithm::MiniBatchKMeans => "Mini-Batch KMeans"@,
                Algorithm::MedianCut => "Median Cut"@,
                Algorithm::Octree => "Octree Quantization"@,
            },
    {
        match self {
            Algorithm::KMeansPlusPlus => "KMeans++",
            Algorithm::MiniBatchKMeans => "Mini-Batch KMeans",
            Algorithm::MedianCut => "Median Cut",
            Algorithm::Octree => "Octree Quantization",
        }
    }
}

/// A colour space in which colours are compared.
#[derive(Clone, Copy, Debug, PartialEq, Eq, Hash, Structural)]
pub enum ColorSpace {
    RGB,
    CIELAB,
    Oklab,
    HSL,
    CAM16,
}

impl ColorSpace {
    /// All colour spaces.
    pub fn all() -> (list: [ColorSpace; 5])
        ensures
            list@ == all_spaces(),
    {
        let list = [
            ColorSpace::RGB,
            ColorSpace::CIELAB,
            ColorSpace::Oklab,
            ColorSpace::HSL,
            ColorSpace::CAM16,
        ];
        assert(list@ =~= all_spaces());
        list
    }

    /// The colour space's name.
    pub fn name(&self) -> (s: &'static str)
        ensures
            s@ == match *self {
                ColorSpace::RGB => "RGB"@,
                ColorSpace::CIELAB => "CIELAB"@,
                ColorSpace::Oklab => "Oklab"@,
                ColorSpace::HSL => "HSL"@,
                ColorSpace::CAM16 => "CAM16"@,
            },
    {
        match self {
            ColorSpace::RGB => "RGB",
            ColorSpace::CIELAB => "CIELAB",
            ColorSpace::Oklab => "Oklab",
            ColorSpace::HSL => "HSL",
            ColorSpace::CAM16 => "CAM16",
        }
    }
}

/// All algorithms, in order.
pub open spec fn all_algorithms() -> Seq<Algorithm> {
    seq![
        Algorithm::KMeansPlusPlus,
        Algorithm::MiniBatchKMeans,
        Algorithm::MedianCut,
        Algorithm::Octree,
    ]
}

/// All colour spaces, in order.
pub open spec fn all_spaces() -> Seq<ColorSpace> {
    seq![
        ColorSpace::RGB,
        ColorSpace::CIELAB,
        ColorSpace::Oklab,
        ColorSpace::HSL,
        ColorSpace::CAM16,
    ]
}

/// The lists hold every algorithm and every colour space once.
pub proof fn lists_are_complete(a: Algorithm, c: ColorSpace)
    ensures
        all_algorithms().contains(a),
        all_algorithms().no_duplicates(),
        all_spaces().contains(c),
        all_spaces().no_duplicates(),
{
    let i: int = match a {
        Algorithm::KMeansPlusPlus => 0,
        Algorithm::MiniBatchKMeans => 1,
        Algorithm::MedianCut => 2,
        Algorithm::Octree => 3,
    };
    assert(all_algorithms()[i] == a);
    let j: int = match c {
        ColorSpace::RGB => 0,
        ColorSpace::CIELAB => 1,
        ColorSpace::Oklab => 2,
        ColorSpace::HSL => 3,
        ColorSpace::CAM16 => 4,
    };
    assert(all_spaces()[j] == c);
}

/// A run of an algorithm in a colour space on an image.
#[derive(Clone, Copy, Debug, PartialEq, Eq, Structural)]
pub struct Task {
    pub image: usize,
    pub algorithm: Algorithm,
    pub space: ColorSpace,
}

/// Task `t` of all tasks: by image, then algorithm, then colour space.
pub open spec fn task_at(t: int) -> Task {
    Task {
        image: (t / 20) as usize,
        algorithm: all_algorithms()[t % 20 / 5],
        space: all_spaces()[t % 5],
    }
}

/// All tasks for `images` images.
pub fn all_tasks(images: usize) -> (tasks: Vec<Task>)
    ensures
        tasks@ == Seq::new(20 * images as nat, |t: int| task_at(t)),
{
    let algorithms = Algorithm::all();
    let spaces = ColorSpace::all();
    let mut tasks: Vec<Task> = Vec::new();
    let mut image: usize = 0;
    while image < images
        invariant
            image <= images,
            algorithms@ == all_algorithms(),
            spaces@ == all_spaces(),
            tasks@.len() == 20 * image,
            forall|t: int| #![trigger tasks@[t]] 0 <= t < tasks@.len() ==> tasks@[t] == task_at(t),
        decreases images - image,
    {
        let mut a: usize = 0;
        while a < 4
            invariant
                a <= 4,
                image < images,
                algorithms@ == all_algorithms(),
                spaces@ == all_spaces(),
                tasks@.len() == 20 * image + 5 * a,
                forall|t: int|
                    #![trigger tasks@[t]]
                    0 <= t < tasks@.len() ==> tasks@[t] == task_at(t),
            decreases 4 - a,
        {
            let mut c: usize = 0;
            while c < 5
                invariant
                    c <= 5,
                    a < 4,
                    image < images,
                    algorithms@ == all_algorithms(),
                    spaces@ == all_spaces(),
                    tasks@.len() == 20 * image + 5 * a + c,
                    forall|t: int|
                        #![trigger tasks@[t]]
                        0 <= t < tasks@.len() ==> tasks@[t] == task_at(t),
                decreases 5 - c,
            {
                let ghost t = tasks@.len() as int;
                assert(t / 20 == image && t % 20 / 5 == a && t % 5 == c);
                tasks.push(Task { image, algorithm: algorithms[a], space: spaces[c] });
                c += 1;
            }
            a += 1;
        }
        image += 1;
    }
    assert(tasks@ =~= Seq::new(20 * images as nat, |t: int| task_at(t)));
    tasks
}

/// Every combination of image, algorithm and colour space is a task.
pub proof fn every_combination_is_a_task(images: int, i: int, a: Algorithm, c: ColorSpace)
    requires
        0 <= i < images <= usize::MAX,
    ensures
        exists|t: int|
            0 <= t < 20 * images && #[trigger] task_at(t) == (Task {
                image: i as usize,
                algorithm: a,
                space: c,
            }),
{
    lists_are_complete(a, c);
    let j = choose|j: int| 0 <= j < 4 && all_algorithms()[j] == a;
    let k = choose|k: int| 0 <= k < 5 && all_spaces()[k] == c;
    let t = 20 * i + 5 * j + k;
    assert(t / 20 == i && t % 20 / 5 == j && t % 5 == k);
    assert(task_at(t) == (Task { image: i as usize, algorithm: a, space: c }));
}

proof fn algorithms_differ(x: int, y: int)
    requires
        0 <= x < 4,
        0 <= y < 4,
        all_algorithms()[x] == all_algorithms()[y],
    ensures
        x == y,
{
}

proof fn spaces_differ(x: int, y: int)
    requires
        0 <= x < 5,
        0 <= y < 5,
        all_spaces()[x] == all_spaces()[y],
    ensures
        x == y,
{
}

/// No two tasks are the same.
pub proof fn tasks_differ(images: int, s: int, t: int)
    requires
        0 <= images <= usize::MAX,
        0 <= s < 20 * images,
        0 <= t < 20 * images,
        task_at(s) == task_at(t),
    ensures
        s == t,
{
    assert(s / 20 <= usize::MAX && t / 20 <= usize::MAX);
    assert(s / 20 == t / 20);
    algorithms_differ(s % 20 / 5, t % 20 / 5);
    spaces_differ(s % 5, t % 5);
    assert(s == 20 * (s / 20) + 5 * (s % 20 / 5) + s % 5);
    assert(t == 20 * (t / 20) + 5 * (t % 20 / 5) + t % 5);
}

/// A colour of a palette.
#[derive(Clone, Copy, Debug, PartialEq, Eq)]
pub struct PaletteColor {
    pub rgb: [u8; 3],
    /// Perceived lightness.
    pub lab_l: Scalar,
    /// Share of the image.
    pub proportion: Scalar,
}

impl PaletteColor {
    /// The colour in hexadecimal.
    pub fn hex(&self) -> (s: String)
        ensures
            s@ == hex_text(self.rgb, false),
    {
        rgb_to_hex(self.rgb)
    }
}

/// A palette from dark to light, the colour that dominates, and the time that the
/// extraction took.
#[derive(Clone, Debug)]
pub struct AlgorithmResult {
    pub palette: Vec<PaletteColor>,
    pub dominant: PaletteColor,
    pub duration: Duration,
}

/// The lightness of colours.
pub open spec fn lightness(palette: Seq<PaletteColor>) -> Seq<Scalar> {
    Seq::new(palette.len(), |i: int| palette[i].lab_l)
}

/// The colours from dark to light, equally light ones in order.
pub open spec fn by_lightness(palette: Seq<PaletteColor>) -> Seq<PaletteColor> {
    let p = key_order(ordinals(lightness(palette)));
    Seq::new(p.len(), |i: int| palette[p[i] as int])
}

/// The colours go from dark to light.
pub open spec fn dark_to_light(palette: Seq<PaletteColor>) -> bool {
    forall|i: int, j: int|
        #![trigger palette[i], palette[j]]
        0 <= i <= j < palette.len() ==> palette[i].lab_l.le(palette[j].lab_l)
}

/// Sorts a palette from dark to light.
pub fn sort_by_lightness(palette: &mut Vec<PaletteColor>)
    requires
        all_numbers(lightness(old(palette)@)),
    ensures
        final(palette)@ == by_lightness(old(palette)@),
        final(palette)@.len() == old(palette)@.len(),
        dark_to_light(final(palette)@),
{
    let ghost start = palette@;
    let mut keys: Vec<u64> = Vec::new();
    let mut i: usize = 0;
    while i < palette.len()
        invariant
            i <= palette@.len(),
            palette@ == start,
            all_numbers(lightness(start)),
            keys@.len() == i,
            forall|k: int|
                #![trigger keys@[k]]
                0 <= k < i ==> keys@[k] == ordinals(lightness(start))[k],
        decreases palette@.len() - i,
    {
        assert(!lightness(start)[i as int].is_nan());
        keys.push(palette[i].lab_l.sort_key());
        i += 1;
    }
    assert(keys@ =~= ordinals(lightness(start)));
    let p = stable_order(keys.as_slice());
    let mut out: Vec<PaletteColor> = Vec::new();
    let mut i: usize = 0;
    while i < p.len()
        invariant
            i <= p@.len(),
            palette@ == start,
            p@.len() == start.len(),
            forall|k: int| #![trigger p@[k]] 0 <= k < p@.len() ==> p@[k] < start.len(),
            out@.len() == i,
            forall|k: int| #![trigger out@[k]] 0 <= k < i ==> out@[k] == start[p@[k] as int],
        decreases p@.len() - i,
    {
        out.push(palette[p[i]]);
        i += 1;
    }
    assert(out@ =~= by_lightness(start));
    proof {
        assert forall|i: int, j: int|
            #![trigger out@[i], out@[j]]
            0 <= i <= j < out@.len() implies out@[i].lab_l.le(out@[j].lab_l) by {
            assert(out@[i] == start[p@[i] as int]);
            assert(out@[j] == start[p@[j] as int]);
            assert(!lightness(start)[p@[i] as int].is_nan());
            assert(!lightness(start)[p@[j] as int].is_nan());
            if i < j {
                assert(crate::order::precedes(keys@, p@[i] as int, p@[j] as int));
            }
        }
    }
    *palette = out;
}

/// Sorting keeps every colour, and lightness ascends.
pub proof fn sorting_keeps_colors(palette: Seq<PaletteColor>, i: int)
    requires
        palette.len() <= usize::MAX,
        all_numbers(lightness(palette)),
        0 <= i < palette.len(),
    ensures
        by_lightness(palette).len() == palette.len(),
        by_lightness(palette).contains(palette[i]),
        palette.contains(by_lightness(palette)[i]),
        i > 0 ==> by_lightness(palette)[i - 1].lab_l.le(by_lightness(palette)[i].lab_l),
{
    let keys = ordinals(lightness(palette));
    crate::order::key_order_exists(keys);
    let p = key_order(keys);
    crate::order::permutation_reaches(p, palette.len() as int, i);
    let j = choose|j: int| 0 <= j < p.len() && p[j] == i;
    assert(by_lightness(palette)[j] == palette[i]);
    assert(by_lightness(palette)[i] == palette[p[i] as int]);
    assert(!lightness(palette)[p[i] as int].is_nan());
    if i > 0 {
        assert(crate::order::precedes(keys, p[i - 1] as int, p[i] as int));
        assert(!lightness(palette)[p[i - 1] as int].is_nan());
    }
}

/// Clusters: the cluster of each item, and the centre of each cluster.
#[derive(Clone, Debug)]
pub struct Fit<C> {
    pub assignments: Vec<usize>,
    pub centers: Vec<C>,
}

impl<C> Fit<C> {
    /// Every one of `n` items is in one of the `k` clusters.
    pub open spec fn wf(self, n: int, k: int) -> bool {
        &&& self.assignments@.len() == n
        &&& self.centers@.len() == k
        &&& forall|i: int|
            #![trigger self.assignments@[i]]
            0 <= i < n ==> self.assignments@[i] < k
    }
}

/// `colors` holds what `paint` makes of each cluster's centre and size.
pub open spec fn painted<C, P: Fn(&C, usize, usize) -> PaletteColor>(
    paint: P,
    fit: Fit<C>,
    colors: Seq<PaletteColor>,
) -> bool {
    let n = fit.assignments@.len();
    &&& colors.len() == fit.centers@.len()
    &&& forall|c: int|
        #![trigger colors[c]]
        0 <= c < colors.len() ==> call_ensures(
            paint,
            (
                &fit.centers@[c],
                members_of(fit.assignments@, c, n as int) as usize,
                n as usize,
            ),
            colors[c],
        )
}

/// The sizes of `k` clusters.
pub open spec fn sizes(assignments: Seq<usize>, k: int) -> Seq<usize> {
    Seq::new(k as nat, |c: int| members_of(assignments, c, assignments.len() as int) as usize)
}

/// `r` is the palette of the clusters: `paint` gives a cluster's colour from its
/// centre, its size and the number of items; the largest cluster dominates, the
/// last one among equals.
pub open spec fn palette_of<C, P: Fn(&C, usize, usize) -> PaletteColor>(
    paint: P,
    fit: Fit<C>,
    r: AlgorithmResult,
) -> bool {
    exists|colors: Seq<PaletteColor>|
        {
            let k = fit.centers@.len() as int;
            &&& #[trigger] painted(paint, fit, colors)
            &&& r.palette@ == by_lightness(colors)
            &&& r.dominant == colors[fullest(sizes(fit.assignments@, k), k)]
        }
}

/// `paint` takes any cluster and never gives a lightness that is not a number.
pub open spec fn paints<C, P: Fn(&C, usize, usize) -> PaletteColor>(paint: P) -> bool {
    &&& forall|c: &C, m: usize, n: usize| #[trigger] call_requires(paint, (c, m, n))
    &&& forall|c: &C, m: usize, n: usize, p: PaletteColor| #[trigger]
        call_ensures(paint, (c, m, n), p) ==> !p.lab_l.is_nan()
}

/// The colour that dominates is that of a cluster with the most members, and every
/// cluster has a colour in the palette.
pub proof fn largest_cluster_dominates<C, P: Fn(&C, usize, usize) -> PaletteColor>(
    paint: P,
    fit: Fit<C>,
    r: AlgorithmResult,
    c: int,
) -> (top: int)
    requires
        palette_of(paint, fit, r),
        paints(paint),
        0 <= c < fit.centers@.len() <= usize::MAX,
        fit.assignments@.len() <= usize::MAX,
    ensures
        0 <= top < fit.centers@.len(),
        members_of(fit.assignments@, c, fit.assignments@.len() as int) <= members_of(
            fit.assignments@,
            top,
            fit.assignments@.len() as int,
        ),
        call_ensures(
            paint,
            (
                &fit.centers@[top],
                members_of(fit.assignments@, top, fit.assignments@.len() as int) as usize,
                fit.assignments@.len() as usize,
            ),
            r.dominant,
        ),
        r.palette@.contains(r.dominant),
        exists|i: int|
            #![trigger r.palette@[i]]
            0 <= i < r.palette@.len() && call_ensures(
                paint,
                (
                    &fit.centers@[c],
                    members_of(fit.assignments@, c, fit.assignments@.len() as int) as usize,
                    fit.assignments@.len() as usize,
                ),
                r.palette@[i],
            ),
{
    let k = fit.centers@.len() as int;
    let n = fit.assignments@.len() as int;
    let counts = sizes(fit.assignments@, k);
    let colors = choose|colors: Seq<PaletteColor>|
        {
            &&& #[trigger] painted(paint, fit, colors)
            &&& r.palette@ == by_lightness(colors)
            &&& r.dominant == colors[fullest(counts, k)]
        };
    let top = fullest(counts, k);
    fullest_has_most(counts, k, c);
    members_fit(fit.assignments@, c, n);
    members_fit(fit.assignments@, top, n);
    let light = lightness(colors);
    assert forall|m: int| #![trigger light[m]] 0 <= m < light.len() implies !light[m].is_nan() by {
        assert(call_ensures(
            paint,
            (
                &fit.centers@[m],
                members_of(fit.assignments@, m, n) as usize,
                n as usize,
            ),
            colors[m],
        ));
    }
    sorting_keeps_colors(colors, top);
    sorting_keeps_colors(colors, c);
    let i = choose|i: int| 0 <= i < r.palette@.len() && r.palette@[i] == colors[c];
    assert(r.palette@[i] == colors[c]);
    top
}

proof fn members_fit(assign: Seq<usize>, c: int, m: int)
    requires
        0 <= m,
    ensures
        members_of(assign, c, m) <= m,
    decreases m,
{
    if m > 0 {
        members_fit(assign, c, m - 1);
    }
}

/// No cluster has more members than the fullest, and every later one has fewer.
pub proof fn fullest_has_most(counts: Seq<usize>, k: int, i: int)
    requires
        0 <= i < k <= counts.len(),
    ensures
        0 <= fullest(counts, k) < k,
        counts[i] <= counts[fullest(counts, k)],
        fullest(counts, k) < i ==> counts[i] < counts[fullest(counts, k)],
    decreases k,
{
    if k > 1 {
        if i < k - 1 {
            fullest_has_most(counts, k - 1, i);
        } else {
            fullest_has_most(counts, k - 1, 0);
        }
    }
}

/// Makes the palette of clusters.
pub fn fit_palette<C, P: Fn(&C, usize, usize) -> PaletteColor>(fit: &Fit<C>, paint: &P) -> (r:
    AlgorithmResult)
    requires
        fit.centers@.len() > 0,
        fit.wf(fit.assignments@.len() as int, fit.centers@.len() as int),
        paints(*paint),
    ensures
        palette_of(*paint, *fit, r),
        r.palette@.len() == fit.centers@.len(),
        dark_to_light(r.palette@),
{
    let n = fit.assignments.len();
    let k = fit.centers.len();
    let counts = count_members(fit.assignments.as_slice(), k);
    assert(counts@ =~= sizes(fit.assignments@, k as int));
    let top = dominant_cluster(counts.as_slice());
    let mut palette: Vec<PaletteColor> = Vec::new();
    let mut i: usize = 0;
    while i < k
        invariant
            i <= k,
            n == fit.assignments@.len(),
            k == fit.centers@.len(),
            counts@ == sizes(fit.assignments@, k as int),
            paints(*paint),
            palette@.len() == i,
            forall|c: int|
                #![trigger palette@[c]]
                0 <= c < i ==> !palette@[c].lab_l.is_nan() && call_ensures(
                    *paint,
                    (
                        &fit.centers@[c],
                        members_of(fit.assignments@, c, n as int) as usize,
                        n,
                    ),
                    palette@[c],
                ),
        decreases k - i,
    {
        assert(call_requires(*paint, (&fit.centers@[i as int], counts@[i as int], n)));
        let color = paint(&fit.centers[i], counts[i], n);
        palette.push(color);
        i += 1;
    }
    let ghost colors = palette@;
    assert(painted(*paint, *fit, colors));
    let dominant = palette[top];
    assert forall|c: int| #![trigger lightness(colors)[c]] 0 <= c < colors.len() implies !lightness(
        colors,
    )[c].is_nan() by {
        assert(!colors[c].lab_l.is_nan());
    }
    sort_by_lightness(&mut palette);
    AlgorithmResult { palette, dominant, duration: no_time() }
}

/// The lesser of two numbers.
pub open spec fn at_most(k: int, n: int) -> int {
    if k <= n {
        k
    } else {
        n
    }
}

/// `cluster` gives clusters for every number of clusters that it is asked for.
pub open spec fn clusters_all<C, E, F: Fn(usize) -> Result<Fit<C>, E>>(cluster: F, n: int) -> bool {
    &&& forall|k: usize| 1 <= k <= n ==> #[trigger] call_requires(cluster, (k,))
    &&& forall|k: usize, r: Result<Fit<C>, E>| #[trigger]
        call_ensures(cluster, (k,), r) && r is Ok && 1 <= k <= n ==> r->Ok_0.wf(n, k as int)
}

/// Extracts a palette of up to `k` colours from `n` pixels: `cluster` forms
/// clusters, `paint` gives their colours; without pixels there is no palette and
/// `blank` dominates.
pub fn run_kmeans<
    C,
    E,
    F: Fn(usize) -> Result<Fit<C>, E>,
    P: Fn(&C, usize, usize) -> PaletteColor,
>(n: usize, k: usize, blank: PaletteColor, cluster: &F, paint: &P) -> (r: Result<
    AlgorithmResult,
    E,
>)
    requires
        clusters_all(*cluster, n as int),
        paints(*paint),
    ensures
        at_most(k as int, n as int) == 0 ==> r is Ok && r->Ok_0.palette@.len() == 0
            && r->Ok_0.dominant == blank,
        at_most(k as int, n as int) > 0 ==> exists|f: Result<Fit<C>, E>|
            {
                &&& #[trigger] call_ensures(
                    *cluster,
                    (at_most(k as int, n as int) as usize,),
                    f,
                )
                &&& match f {
                    Ok(fit) => r is Ok && fit.wf(n as int, at_most(k as int, n as int))
                        && palette_of(*paint, fit, r->Ok_0),
                    Err(e) => r == Err::<AlgorithmResult, E>(e),
                }
            },
        r is Ok ==> r->Ok_0.palette@.len() == at_most(k as int, n as int),
        r is Ok ==> dark_to_light(r->Ok_0.palette@),
{
    let m: usize = if k <= n {
        k
    } else {
        n
    };
    if m == 0 {
        return Ok(AlgorithmResult { palette: Vec::new(), dominant: blank, duration: no_time() });
    }
    let start = now();
    assert(call_requires(*cluster, (m,)));
    let out = cluster(m);
    assert(m == at_most(k as int, n as int) as usize);
    assert(call_ensures(*cluster, (at_most(k as int, n as int) as usize,), out));
    match out {
        Ok(fit) => {
            let mut r = fit_palette(&fit, paint);
            r.duration = since(&start);
            Ok(r)
        },
        Err(e) => Err(e),
    }
}

/// What comes of training on a batch.
pub enum Step<M, E> {
    /// The model has settled.
    Converged(M),
    /// The model is still moving.
    NotConverged(M),
    /// The batch cannot be used.
    Failed(E),
}

/// Why a model cannot be trained.
#[derive(Debug)]
pub enum TrainError<E> {
    /// There is no full batch.
    NoBatch,
    /// The first batch cannot be used.
    Init(E),
    /// A later batch cannot be used.
    Update(E),
}

/// Training the model `before` on batch `b` gives `m`.
pub open spec fn advances<M, E, F: Fn(Option<M>, usize) -> Step<M, E>>(
    fit: F,
    before: M,
    b: usize,
    m: M,
    settled: bool,
) -> bool {
    if settled {
        call_ensures(fit, (Some(before), b), Step::<M, E>::Converged(m))
    } else {
        call_ensures(fit, (Some(before), b), Step::<M, E>::NotConverged(m))
    }
}

/// The model after `rounds` rounds of training is `m`, and still moving unless
/// `settled`. The first batch starts the model; every later one improves it, as
/// long as it has not settled on a later one. Batches are used in turn.
pub open spec fn trained<M, E, F: Fn(Option<M>, usize) -> Step<M, E>>(
    fit: F,
    batches: int,
    rounds: int,
    m: M,
    settled: bool,
) -> bool
    decreases rounds,
{
    if rounds <= 0 {
        false
    } else if rounds == 1 {
        &&& !settled
        &&& call_ensures(fit, (None::<M>, 0usize), Step::<M, E>::Converged(m)) || call_ensures(
            fit,
            (None::<M>, 0usize),
            Step::<M, E>::NotConverged(m),
        )
    } else {
        ||| trained::<M, E, F>(fit, batches, rounds - 1, m, true) && settled
        ||| exists|before: M|
            {
                &&& #[trigger] advances::<M, E, F>(
                    fit,
                    before,
                    ((rounds - 1) % batches) as usize,
                    m,
                    settled,
                )
                &&& trained::<M, E, F>(fit, batches, rounds - 1, before, false)
            }
    }
}

/// A model that is still moving has been trained on every batch in turn: the last
/// round improved what the rounds before had made, with the batch that follows
/// theirs.
pub proof fn batches_take_turns<M, E, F: Fn(Option<M>, usize) -> Step<M, E>>(
    fit: F,
    batches: int,
    rounds: int,
    m: M,
) -> (before: M)
    requires
        2 <= rounds,
        trained::<M, E, F>(fit, batches, rounds, m, false),
    ensures
        trained::<M, E, F>(fit, batches, rounds - 1, before, false),
        rounds <= batches <= usize::MAX ==> call_ensures(
            fit,
            (Some(before), (rounds - 1) as usize),
            Step::<M, E>::NotConverged(m),
        ),
        batches < rounds <= 2 * batches <= usize::MAX ==> call_ensures(
            fit,
            (Some(before), (rounds - 1 - batches) as usize),
            Step::<M, E>::NotConverged(m),
        ),
{
    let before = choose|before: M|
        {
            &&& #[trigger] advances::<M, E, F>(
                fit,
                before,
                ((rounds - 1) % batches) as usize,
                m,
                false,
            )
            &&& trained::<M, E, F>(fit, batches, rounds - 1, before, false)
        };
    if rounds <= batches {
        vstd::arithmetic::div_mod::lemma_small_mod((rounds - 1) as nat, batches as nat);
    } else if rounds <= 2 * batches {
        vstd::arithmetic::div_mod::lemma_small_mod((rounds - 1 - batches) as nat, batches as nat);
        vstd::arithmetic::div_mod::lemma_mod_add_multiples_vanish(rounds - 1 - batches, batches);
    }
    before
}

/// Training starts without a model, on the first batch.
pub proof fn training_starts_fresh<M, E, F: Fn(Option<M>, usize) -> Step<M, E>>(
    fit: F,
    batches: int,
    m: M,
)
    requires
        trained::<M, E, F>(fit, batches, 1, m, false),
    ensures
        call_ensures(fit, (None::<M>, 0usize), Step::<M, E>::Converged(m)) || call_ensures(
            fit,
            (None::<M>, 0usize),
            Step::<M, E>::NotConverged(m),
        ),
{
}

/// Training fails with `e` in some round.
pub open spec fn fails_later<M, E, F: Fn(Option<M>, usize) -> Step<M, E>>(
    fit: F,
    batches: int,
    rounds: int,
    e: E,
) -> bool {
    exists|before: M, r: int|
        {
            &&& 2 <= r <= rounds
            &&& #[trigger] trained::<M, E, F>(fit, batches, r - 1, before, false)
            &&& call_ensures(
                fit,
                (Some(before), ((r - 1) % batches) as usize),
                Step::<M, E>::Failed(e),
            )
        }
}

/// Trains a model on batches in turn, for the given number of rounds or until it
/// settles after the first.
pub fn train_batches<M, E, F: Fn(Option<M>, usize) -> Step<M, E>>(
    batches: usize,
    rounds: usize,
    fit: &F,
) -> (r: Result<M, TrainError<E>>)
    requires
        forall|m: Option<M>, b: usize| b < batches ==> #[trigger] call_requires(*fit, (m, b)),
    ensures
        batches == 0 || rounds == 0 <==> r is Err && r->Err_0 is NoBatch,
        match r {
            Ok(m) => trained::<M, E, F>(*fit, batches as int, rounds as int, m, true)
                || trained::<M, E, F>(*fit, batches as int, rounds as int, m, false),
            Err(TrainError::NoBatch) => true,
            Err(TrainError::Init(e)) => call_ensures(
                *fit,
                (None::<M>, 0usize),
                Step::<M, E>::Failed(e),
            ),
            Err(TrainError::Update(e)) => fails_later::<M, E, F>(
                *fit,
                batches as int,
                rounds as int,
                e,
            ),
        },
{
    if batches == 0 || rounds == 0 {
        return Err(TrainError::NoBatch);
    }
    let mut model: M = match fit(None, 0) {
        Step::Converged(m) => m,
        Step::NotConverged(m) => m,
        Step::Failed(e) => {
            return Err(TrainError::Init(e));
        },
    };
    let mut round: usize = 1;
    while round < rounds
        invariant
            1 <= round <= rounds,
            0 < batches,
            forall|m: Option<M>, b: usize| b < batches ==> #[trigger] call_requires(*fit, (m, b)),
            trained::<M, E, F>(*fit, batches as int, round as int, model, false),
        decreases rounds - round,
    {
        let ghost before = model;
        let b = round % batches;
        assert(call_requires(*fit, (Some(model), b)));
        match fit(Some(model), b) {
            Step::Converged(m) => {
                proof {
                    one_more_round::<M, E, F>(
                        *fit,
                        batches as int,
                        round as int,
                        before,
                        b,
                        m,
                        true,
                    );
                    stays_settled::<M, E, F>(
                        *fit,
                        batches as int,
                        round + 1,
                        rounds as int,
                        m,
                    );
                }
                return Ok(m);
            },
            Step::NotConverged(m) => {
                proof {
                    one_more_round::<M, E, F>(
                        *fit,
                        batches as int,
                        round as int,
                        before,
                        b,
                        m,
                        false,
                    );
                }
                model = m;
            },
            Step::Failed(e) => {
                assert(trained::<M, E, F>(*fit, batches as int, (round + 1) - 1, before, false));
                assert(fails_later::<M, E, F>(*fit, batches as int, rounds as int, e));
                return Err(TrainError::Update(e));
            },
        }
        round += 1;
    }
    Ok(model)
}

/// One more round, with the batch whose turn it is.
proof fn one_more_round<M, E, F: Fn(Option<M>, usize) -> Step<M, E>>(
    fit: F,
    batches: int,
    round: int,
    before: M,
    b: usize,
    m: M,
    settled: bool,
)
    requires
        1 <= round,
        trained::<M, E, F>(fit, batches, round, before, false),
        1 <= batches <= usize::MAX,
        b == (round % batches) as usize,
        advances::<M, E, F>(fit, before, b, m, settled),
    ensures
        trained::<M, E, F>(fit, batches, round + 1, m, settled),
{
    assert(advances::<M, E, F>(
        fit,
        before,
        (((round + 1) - 1) % batches) as usize,
        m,
        settled,
    ));
}

/// A settled model does not change in later rounds.
pub proof fn stays_settled<M, E, F: Fn(Option<M>, usize) -> Step<M, E>>(
    fit: F,
    batches: int,
    from: int,
    to: int,
    m: M,
)
    requires
        trained::<M, E, F>(fit, batches, from, m, true),
        from <= to,
    ensures
        trained::<M, E, F>(fit, batches, to, m, true),
    decreases to - from,
{
    if from < to {
        stays_settled::<M, E, F>(fit, batches, from, to - 1, m);
    }
}

/// Why a palette cannot be extracted by batches.
#[derive(Debug)]
pub enum MiniBatchError<E> {
    /// No pixel has finite coordinates.
    NoPixels,
    /// The model cannot be trained.
    Train(TrainError<E>),
}

/// Extracts a palette of up to `k` colours from `n` pixels: `fit` trains a model
/// on batches, `predict` forms the model's clusters, `paint` gives their colours.
pub fn run_minibatch<
    C,
    M,
    E,
    F: Fn(Option<M>, usize) -> Step<M, E>,
    G: Fn(&M) -> Fit<C>,
    P: Fn(&C, usize, usize) -> PaletteColor,
>(n: usize, k: usize, fit: &F, predict: &G, paint: &P) -> (r: Result<
    AlgorithmResult,
    MiniBatchError<E>,
>)
    requires
        forall|m: Option<M>, b: usize|
            b < n / BATCH_SIZE ==> #[trigger] call_requires(*fit, (m, b)),
        forall|m: &M| #[trigger] call_requires(*predict, (m,)),
        forall|m: &M, f: Fit<C>| #[trigger]
            call_ensures(*predict, (m,), f) ==> f.wf(n as int, at_most(k as int, n as int)),
        paints(*paint),
    ensures
        n == 0 <==> r is Err && r->Err_0 is NoPixels,
        0 < n < BATCH_SIZE <==> r is Err && r->Err_0 is Train && r->Err_0->Train_0 is NoBatch,
        match r {
            Ok(res) => exists|m: M, f: Fit<C>, settled: bool|
                {
                    &&& #[trigger] trained::<M, E, F>(
                        *fit,
                        n as int / BATCH_SIZE as int,
                        rounds_for(n as int),
                        m,
                        settled,
                    )
                    &&& #[trigger] call_ensures(*predict, (&m,), f)
                    &&& palette_of(*paint, f, res)
                },
            Err(MiniBatchError::NoPixels) => true,
            Err(MiniBatchError::Train(TrainError::NoBatch)) => true,
            Err(MiniBatchError::Train(TrainError::Init(e))) => call_ensures(
                *fit,
                (None::<M>, 0usize),
                Step::<M, E>::Failed(e),
            ),
            Err(MiniBatchError::Train(TrainError::Update(e))) => fails_later::<M, E, F>(
                *fit,
                n as int / BATCH_SIZE as int,
                rounds_for(n as int),
                e,
            ),
        },
{
    let start = now();
    if n == 0 {
        return Err(MiniBatchError::NoPixels);
    }
    let rounds = batch_rounds(n);
    let batches = n / BATCH_SIZE;
    match train_batches(batches, rounds, fit) {
        Ok(m) => {
            assert(call_requires(*predict, (&m,)));
            let f = predict(&m);
            assert(call_ensures(*predict, (&m,), f));
            assert(f.assignments@[0] < f.centers@.len());
            let mut r = fit_palette(&f, paint);
            r.duration = since(&start);
            Ok(r)
        },
        Err(e) => Err(MiniBatchError::Train(e)),
    }
}

/// `colors` holds what `paint` makes of each group of pixels, given the number of
/// pixels in all groups.
pub open spec fn groups_painted<P: Fn(&Vec<usize>, usize) -> PaletteColor>(
    paint: P,
    groups: Seq<Vec<usize>>,
    total: usize,
    colors: Seq<PaletteColor>,
) -> bool {
    &&& colors.len() == groups.len()
    &&& forall|g: int|
        #![trigger colors[g]]
        0 <= g < colors.len() ==> call_ensures(paint, (&groups[g], total), colors[g])
}

/// `paint` takes any group and never gives a lightness that is not a number.
pub open spec fn paints_groups<P: Fn(&Vec<usize>, usize) -> PaletteColor>(paint: P) -> bool {
    &&& forall|g: &Vec<usize>, n: usize| #[trigger] call_requires(paint, (g, n))
    &&& forall|g: &Vec<usize>, n: usize, p: PaletteColor| #[trigger]
        call_ensures(paint, (g, n), p) ==> !p.lab_l.is_nan()
}

/// `r` is the palette of groups of pixels, one of which dominates.
pub open spec fn palette_of_groups<P: Fn(&Vec<usize>, usize) -> PaletteColor>(
    paint: P,
    groups: Seq<Vec<usize>>,
    total: usize,
    top: int,
    r: AlgorithmResult,
) -> bool {
    exists|colors: Seq<PaletteColor>|
        {
            &&& #[trigger] groups_painted(paint, groups, total, colors)
            &&& r.palette@ == by_lightness(colors)
            &&& r.dominant == colors[top]
        }
}

fn group_palette<P: Fn(&Vec<usize>, usize) -> PaletteColor>(
    groups: &Vec<Vec<usize>>,
    total: usize,
    top: usize,
    paint: &P,
) -> (r: AlgorithmResult)
    requires
        top < groups@.len(),
        paints_groups(*paint),
    ensures
        palette_of_groups(*paint, groups@, total, top as int, r),
        r.palette@.len() == groups@.len(),
        dark_to_light(r.palette@),
{
    let mut palette: Vec<PaletteColor> = Vec::new();
    let mut i: usize = 0;
    while i < groups.len()
        invariant
            i <= groups@.len(),
            paints_groups(*paint),
            palette@.len() == i,
            forall|g: int|
                #![trigger palette@[g]]
                0 <= g < i ==> !palette@[g].lab_l.is_nan() && call_ensures(
                    *paint,
                    (&groups@[g], total),
                    palette@[g],
                ),
        decreases groups@.len() - i,
    {
        assert(call_requires(*paint, (&groups@[i as int], total)));
        let color = paint(&groups[i], total);
        palette.push(color);
        i += 1;
    }
    let ghost colors = palette@;
    assert(groups_painted(*paint, groups@, total, colors));
    let dominant = palette[top];
    assert forall|c: int| #![trigger lightness(colors)[c]] 0 <= c < colors.len() implies !lightness(
        colors,
    )[c].is_nan() by {
        assert(!colors[c].lab_l.is_nan());
    }
    sort_by_lightness(&mut palette);
    AlgorithmResult { palette, dominant, duration: no_time() }
}

/// Median cut has no pixels to cut.
#[derive(Clone, Copy, Debug, PartialEq, Eq, Structural)]
pub struct NoPixels;

impl NoPixels {
    /// What went wrong, in words.
    pub fn message(&self) -> (s: &'static str)
        ensures
            s@ == "Median Cut requires at least one pixel"@,
    {
        "Median Cut requires at least one pixel"
    }
}

/// Extracts a palette of up to `k` colours by median cut: one for each bucket, the
/// largest bucket dominating, the last one among equals.
pub fn run_median_cut<
    W: Fn(Scalar, Scalar) -> Scalar,
    P: Fn(&Vec<usize>, usize) -> PaletteColor,
>(axes: &Axes, k: usize, width: &W, paint: &P) -> (r: Result<AlgorithmResult, NoPixels>)
    requires
        axes.wf(),
        is_width(*width),
        paints_groups(*paint),
    ensures
        r is Err <==> axes.x@.len() == 0,
        r is Ok ==> exists|buckets: Seq<Vec<usize>>|
            {
                &&& #[trigger] contents(buckets) == cut_largest(
                    *axes,
                    *width,
                    seq![every_pixel(axes.x@.len() as int)],
                    at_most(k as int, axes.x@.len() as int),
                )
                &&& palette_of_groups(
                    *paint,
                    buckets,
                    axes.x@.len() as usize,
                    largest(contents(buckets), buckets.len() as int),
                    r->Ok_0,
                )
            },
        r is Ok ==> r->Ok_0.palette@.len() == if at_most(k as int, axes.x@.len() as int) >= 1 {
            at_most(k as int, axes.x@.len() as int)
        } else {
            1
        },
        r is Ok ==> dark_to_light(r->Ok_0.palette@),
{
    let start = now();
    match median_cut(axes, k, width) {
        None => Err(NoPixels),
        Some(buckets) => {
            let top = dominant_bucket(&buckets);
            let mut r = group_palette(&buckets, axes.x.len(), top, paint);
            r.duration = since(&start);
            Ok(r)
        },
    }
}

/// The groups are the pixels of the leaves.
pub open spec fn leaf_groups(leaves: Seq<OctreeLeaf>, groups: Seq<Vec<usize>>) -> bool {
    &&& groups.len() == leaves.len()
    &&& forall|i: int|
        #![trigger groups[i]]
        0 <= i < groups.len() ==> groups[i]@ == leaves[i].pixels@
}

/// Number of leaves that are asked for: at least one, at most one for each pixel.
pub open spec fn leaf_target(k: int, n: int) -> int {
    at_most(
        if k >= 1 {
            k
        } else {
            1
        },
        n,
    )
}

/// Leaves are asked for within one and the number of pixels.
pub proof fn leaf_target_is_clamped(k: int, n: int)
    requires
        0 <= k,
        1 <= n,
    ensures
        1 <= leaf_target(k, n) <= n,
        1 <= k <= n ==> leaf_target(k, n) == k,
        k > n ==> leaf_target(k, n) == n,
{
}

/// Extracts a palette of up to `k` colours, at least one, by an octree over the
/// path codes of the pixels: one for each leaf, the fullest leaf dominating.
/// Without pixels there is no palette and `blank` dominates.
pub fn run_octree<P: Fn(&Vec<usize>, usize) -> PaletteColor>(
    codes: &[u32],
    k: usize,
    blank: PaletteColor,
    paint: &P,
) -> (r: AlgorithmResult)
    requires
        codes_wf(codes@),
        paints_groups(*paint),
    ensures
        codes@.len() == 0 ==> r.palette@.len() == 0 && r.dominant == blank,
        codes@.len() > 0 ==> exists|leaves: Seq<OctreeLeaf>, groups: Seq<Vec<usize>>|
            {
                &&& #[trigger] is_quantised(
                    ints(codes@),
                    leaf_target(k as int, codes@.len() as int),
                    leaves,
                )
                &&& #[trigger] leaf_groups(leaves, groups)
                &&& palette_of_groups(
                    *paint,
                    groups,
                    leaf_total(leaves, leaves.len() as int) as usize,
                    crate::octree::fullest(leaves, leaves.len() as int),
                    r,
                )
            },
        codes@.len() > 0 ==> r.palette@.len() == at_most(
            leaf_target(k as int, codes@.len() as int),
            crate::octree::cells(ints(codes@), 8).len() as int,
        ),
        dark_to_light(r.palette@),
{
    let n = codes.len();
    if n == 0 {
        return AlgorithmResult { palette: Vec::new(), dominant: blank, duration: no_time() };
    }
    let start = now();
    let k1: usize = if k >= 1 {
        k
    } else {
        1
    };
    let kk: usize = if k1 <= n {
        k1
    } else {
        n
    };
    let leaves = quantize(codes, kk);
    let count = leaves.len();
    let ghost c = ints(codes@);
    proof {
        codes_below(codes@);
        distinct_lists(Seq::new(c.len(), |i: int| cell_of(c[i], 8)));
    }
    let top = dominant_leaf(leaves.as_slice());
    let mut groups: Vec<Vec<usize>> = Vec::new();
    let mut total: usize = 0;
    let mut i: usize = 0;
    while i < leaves.len()
        invariant
            i <= leaves@.len(),
            count == leaves@.len(),
            c == ints(codes@),
            c.len() == n,
            n > 0,
            kk >= 1,
            forall|i: int| #![trigger c[i]] 0 <= i < c.len() ==> 0 <= c[i] < pow8(8),
            is_quantised(c, kk as int, leaves@),
            total == leaf_total(leaves@, i as int),
            groups@.len() == i,
            forall|g: int| #![trigger groups@[g]] 0 <= g < i ==> groups@[g]@ == leaves@[g].pixels@,
        decreases leaves@.len() - i,
    {
        proof {
            leaves_hold_few(c, kk as int, leaves@, i + 1);
        }
        total = total + leaves[i].pixels.len();
        groups.push(copy_indices(&leaves[i].pixels));
        i += 1;
    }
    let mut r = group_palette(&groups, total, top, paint);
    r.duration = since(&start);
    proof {
        assert(leaf_groups(leaves@, groups@));
        assert(is_quantised(
            ints(codes@),
            leaf_target(k as int, codes@.len() as int),
            leaves@,
        ));
        assert(total == leaf_total(leaves@, leaves@.len() as int) as usize);
    }
    r
}

fn copy_indices(v: &Vec<usize>) -> (out: Vec<usize>)
    ensures
        out@ == v@,
{
    let mut out: Vec<usize> = Vec::new();
    let mut i: usize = 0;
    while i < v.len()
        invariant
            i <= v@.len(),
            out@.len() == i,
            forall|k: int| #![trigger out@[k]] 0 <= k < i ==> out@[k] == v@[k],
        decreases v@.len() - i,
    {
        out.push(v[i]);
        i += 1;
    }
    assert(out@ =~= v@);
    out
}

/// How a palette is extracted.
#[derive(Clone, Copy, Debug, PartialEq, Eq, Structural)]
pub enum PaletteMethod {
    KMeans,
    MiniBatch,
    MedianCut,
    Octree,
}

/// The method of a name; any other name means the first method.
pub open spec fn method_named(name: Seq<char>) -> PaletteMethod {
    if name == "kmeanspp"@ {
        PaletteMethod::KMeans
    } else if name == "minibatch"@ {
        PaletteMethod::MiniBatch
    } else if name == "mediancut"@ {
        PaletteMethod::MedianCut
    } else if name == "octree"@ {
        PaletteMethod::Octree
    } else {
        PaletteMethod::KMeans
    }
}

/// Every method has its name, and any other name means the first method.
pub proof fn methods_have_names(name: Seq<char>)
    ensures
        method_named(name) is MiniBatch <==> name == "minibatch"@,
        method_named(name) is MedianCut <==> name == "mediancut"@,
        method_named(name) is Octree <==> name == "octree"@,
        method_named(name) is KMeans <==> name != "minibatch"@ && name != "mediancut"@ && name
            != "octree"@,
{
    reveal_strlit("kmeanspp");
    reveal_strlit("minibatch");
    reveal_strlit("mediancut");
    reveal_strlit("octree");
    assert("minibatch"@.len() == 9 && "mediancut"@.len() == 9);
    assert("minibatch"@[1] != "mediancut"@[1]);
    assert("kmeanspp"@.len() == 8 && "octree"@.len() == 6);
}

/// Bit pattern of 1e-10, below which there is no foreground.
pub const LEAST_WEIGHT_BITS: u64 = 0x3DDB_7CDF_D9D7_BDBB;

/// Decides how a foreground palette is extracted: not at all without pixels or
/// without weight, else by the named method, with as many colours as asked for
/// and as the weight allows, but at least two.
pub fn palette_plan(
    pixels: usize,
    total_weight: Scalar,
    colors: usize,
    effective_weight: usize,
    algorithm: &str,
) -> (plan: Option<(PaletteMethod, usize)>)
    ensures
        plan is None <==> pixels == 0 || total_weight.lt(Scalar { bits: LEAST_WEIGHT_BITS }),
        plan is Some ==> {
            &&& plan->Some_0.0 == method_named(algorithm@)
            &&& plan->Some_0.1 == if at_most(colors as int, effective_weight as int) >= 2 {
                at_most(colors as int, effective_weight as int)
            } else {
                2
            }
        },
{
    let least = Scalar::new(LEAST_WEIGHT_BITS);
    if pixels == 0 || total_weight.less(&least) {
        return None;
    }
    let k: usize = if colors <= effective_weight {
        colors
    } else {
        effective_weight
    };
    let k: usize = if k >= 2 {
        k
    } else {
        2
    };
    let name = String::from_str(algorithm);
    let method = if name == String::from_str("kmeanspp") {
        PaletteMethod::KMeans
    } else if name == String::from_str("minibatch") {
        PaletteMethod::MiniBatch
    } else if name == String::from_str("mediancut") {
        PaletteMethod::MedianCut
    } else if name == String::from_str("octree") {
        PaletteMethod::Octree
    } else {
        PaletteMethod::KMeans
    };
    Some((method, k))
}

/// Every group is painted by itself, the group at the top dominates, and the
/// palette holds the painted colours from dark to light.
pub proof fn groups_are_painted<P: Fn(&Vec<usize>, usize) -> PaletteColor>(
    paint: P,
    groups: Seq<Vec<usize>>,
    total: usize,
    top: int,
    r: AlgorithmResult,
    g: int,
) -> (color: PaletteColor)
    requires
        palette_of_groups(paint, groups, total, top, r),
        paints_groups(paint),
        groups.len() <= usize::MAX,
        0 <= top < groups.len(),
        0 <= g < groups.len(),
    ensures
        call_ensures(paint, (&groups[g], total), color),
        call_ensures(paint, (&groups[top], total), r.dominant),
        r.palette@.contains(color),
        r.palette@.contains(r.dominant),
        r.palette@.len() == groups.len(),
        g > 0 ==> r.palette@[g - 1].lab_l.le(r.palette@[g].lab_l),
{
    let colors = choose|colors: Seq<PaletteColor>|
        {
            &&& #[trigger] groups_painted(paint, groups, total, colors)
            &&& r.palette@ == by_lightness(colors)
            &&& r.dominant == colors[top]
        };
    assert forall|i: int| #![trigger lightness(colors)[i]] 0 <= i < colors.len() implies
        !lightness(colors)[i].is_nan() by {
        assert(call_ensures(paint, (&groups[i], total), colors[i]));
    }
    assert(call_ensures(paint, (&groups[top], total), colors[top]));
    sorting_keeps_colors(colors, g);
    sorting_keeps_colors(colors, top);
    colors[g]
}

} // verus!
