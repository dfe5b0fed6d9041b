//! What is made of an image, in which order, and under which names.

use vstd::prelude::*;
use vstd::string::*;
use crate::scalar::Scalar;
use crate::weights::{texts_of, weights_to_array, Weights};

verus! {

/// Names of the features, in order.
pub open spec fn all_features() -> Seq<Seq<char>> {
    seq![
        "dct_complexity"@,
        "lab_gradient"@,
        "spectral_residual"@,
        "global_light_residual"@,
        "global_lab_a_residual"@,
        "global_lab_b_residual"@,
        "global_sat_residual"@,
        "local_light_residual"@,
        "local_lab_a_residual"@,
        "local_lab_b_residual"@,
        "local_sat_residual"@,
        "background_mask_morph"@,
        "background_fg_confidence"@,
        "subject_prior"@,
        "abs_light"@,
        "abs_lab_a"@,
        "abs_lab_b"@,
        "abs_sat"@,
        "segment_foreground"@,
    ]
}

/// Names of the features, in order.
pub fn feature_names() -> (list: Vec<String>)
    ensures
        texts_of(list@) == all_features(),
{
    let list: Vec<String> = vec![
        String::from_str("dct_complexity"),
        String::from_str("lab_gradient"),
        String::from_str("spectral_residual"),
        String::from_str("global_light_residual"),
        String::from_str("global_lab_a_residual"),
        String::from_str("global_lab_b_residual"),
        String::from_str("global_sat_residual"),
        String::from_str("local_light_residual"),
        String::from_str("local_lab_a_residual"),
        String::from_str("local_lab_b_residual"),
        String::from_str("local_sat_residual"),
        String::from_str("background_mask_morph"),
        String::from_str("background_fg_confidence"),
        String::from_str("subject_prior"),
        String::from_str("abs_light"),
        String::from_str("abs_lab_a"),
        String::from_str("abs_lab_b"),
        String::from_str("abs_sat"),
        String::from_str("segment_foreground"),
    ];
    assert(texts_of(list@) =~= all_features());
    list
}

/// Names of the maps that show how the background was found.
pub open spec fn background_maps() -> Seq<Seq<char>> {
    seq![
        "bg_candidate"@,
        "bg_barrier"@,
        "bg_mask_before_protect"@,
        "foreground_protect"@,
        "bg_mask_after_protect"@,
        "fg_confidence"@,
    ]
}

/// Names of the maps that show how the background was found.
pub fn background_names() -> (list: Vec<String>)
    ensures
        texts_of(list@) == background_maps(),
{
    let list: Vec<String> = vec![
        String::from_str("bg_candidate"),
        String::from_str("bg_barrier"),
        String::from_str("bg_mask_before_protect"),
        String::from_str("foreground_protect"),
        String::from_str("bg_mask_after_protect"),
        String::from_str("fg_confidence"),
    ];
    assert(texts_of(list@) =~= background_maps());
    list
}

/// Names of the maps that show what the segmentation says.
pub open spec fn segment_maps() -> Seq<Seq<char>> {
    seq![
        "segment_region_id"@,
        "segment_boundary"@,
        "segment_bg_probability"@,
        "segment_saliency"@,
        "segment_subject_confidence"@,
    ]
}

/// Names of the maps that show what the segmentation says.
pub fn segment_names() -> (list: Vec<String>)
    ensures
        texts_of(list@) == segment_maps(),
{
    let list: Vec<String> = vec![
        String::from_str("segment_region_id"),
        String::from_str("segment_boundary"),
        String::from_str("segment_bg_probability"),
        String::from_str("segment_saliency"),
        String::from_str("segment_subject_confidence"),
    ];
    assert(texts_of(list@) =~= segment_maps());
    list
}

/// Names of the fused maps: the plain ones, then the filtered ones.
pub open spec fn fused_maps() -> Seq<Seq<char>> {
    seq![
        "fused_add"@,
        "fused_softmul"@,
        "fused_hybrid"@,
        "fused_add_filtered"@,
        "fused_softmul_filtered"@,
        "fused_hybrid_filtered"@,
    ]
}

/// Names of the fused maps: the plain ones, then the filtered ones.
pub fn fused_names() -> (list: Vec<String>)
    ensures
        texts_of(list@) == fused_maps(),
{
    let list: Vec<String> = vec![
        String::from_str("fused_add"),
        String::from_str("fused_softmul"),
        String::from_str("fused_hybrid"),
        String::from_str("fused_add_filtered"),
        String::from_str("fused_softmul_filtered"),
        String::from_str("fused_hybrid_filtered"),
    ];
    assert(texts_of(list@) =~= fused_maps());
    list
}

/// Names of the maps on a small sheet.
pub open spec fn small_maps() -> Seq<Seq<char>> {
    seq![
        "dct"@,
        "lab_grad"@,
        "spectral"@,
        "local_light"@,
        "local_sat"@,
        "bg_mask"@,
        "fg_confidence"@,
        "fused"@,
    ]
}

/// Names of the maps on a small sheet.
pub fn small_names() -> (list: Vec<String>)
    ensures
        texts_of(list@) == small_maps(),
{
    let list: Vec<String> = vec![
        String::from_str("dct"),
        String::from_str("lab_grad"),
        String::from_str("spectral"),
        String::from_str("local_light"),
        String::from_str("local_sat"),
        String::from_str("bg_mask"),
        String::from_str("fg_confidence"),
        String::from_str("fused"),
    ];
    assert(texts_of(list@) =~= small_maps());
    list
}

fn append_names(list: &mut Vec<String>, more: Vec<String>)
    ensures
        texts_of(final(list)@) == texts_of(old(list)@) + texts_of(more@),
{
    let ghost start = list@;
    let mut i: usize = 0;
    while i < more.len()
        invariant
            i <= more@.len(),
            texts_of(list@) == texts_of(start) + texts_of(more@).take(i as int),
        decreases more@.len() - i,
    {
        let s = String::from_str(more[i].as_str());
        let ghost before = list@;
        let ghost name = s@;
        list.push(s);
        assert(texts_of(list@) =~= texts_of(before).push(name));
        assert(texts_of(list@) =~= texts_of(start) + texts_of(more@).take(i + 1));
        i += 1;
    }
    assert(texts_of(more@).take(more@.len() as int) =~= texts_of(more@));
    assert(texts_of(start) + texts_of(more@).take(0) =~= texts_of(start));
}

/// The maps on a full sheet, in order: the features, the background's maps, and
/// the segmentation's where there is one.
pub open spec fn sheet_maps(segmented: bool) -> Seq<Seq<char>> {
    let base = all_features() + background_maps();
    if segmented {
        base + segment_maps()
    } else {
        base
    }
}

/// Names of the maps on a full sheet.
pub fn sheet_names(segmented: bool) -> (list: Vec<String>)
    ensures
        texts_of(list@) == sheet_maps(segmented),
{
    let mut list = feature_names();
    append_names(&mut list, background_names());
    if segmented {
        append_names(&mut list, segment_names());
    }
    list
}

/// The maps of an image after fusing and filtering.
#[derive(Clone, Debug)]
pub struct FusedMaps {
    pub add: Vec<Scalar>,
    pub mul: Vec<Scalar>,
    pub hybrid: Vec<Scalar>,
    pub add_filtered: Vec<Scalar>,
    pub mul_filtered: Vec<Scalar>,
    pub hybrid_filtered: Vec<Scalar>,
}

/// A filtered map: what `keep` leaves of the map where there is a filter, else
/// the map itself.
pub open spec fn filtered_map<K: Fn(&Vec<Scalar>) -> Vec<Scalar>>(
    keep: K,
    filter: bool,
    map: Vec<Scalar>,
    out: Vec<Scalar>,
) -> bool {
    if filter {
        call_ensures(keep, (&map,), out)
    } else {
        out@ == map@
    }
}

/// The weights by which features are fused: the given ones, or what `weigh` makes
/// of them where weights are dynamic.
pub open spec fn weights_used<
    W: Fn(&Vec<Scalar>, &Vec<Scalar>) -> (Vec<Scalar>, Vec<Scalar>),
>(weigh: W, dynamic: bool, add: Weights, mul: Weights, used: (Vec<Scalar>, Vec<Scalar>)) -> bool {
    if dynamic {
        exists|a: Vec<Scalar>, m: Vec<Scalar>|
            {
                &&& a@ == add.listed()
                &&& m@ == mul.listed()
                &&& #[trigger] call_ensures(weigh, (&a, &m), used)
            }
    } else {
        used.0@ == add.listed() && used.1@ == mul.listed()
    }
}

/// `maps` are the fused maps.
pub open spec fn fused_by<
    W: Fn(&Vec<Scalar>, &Vec<Scalar>) -> (Vec<Scalar>, Vec<Scalar>),
    F: Fn(&Vec<Scalar>, &Vec<Scalar>) -> (Vec<Scalar>, Vec<Scalar>, Vec<Scalar>),
    K: Fn(&Vec<Scalar>) -> Vec<Scalar>,
>(
    weigh: W,
    fuse: F,
    keep: K,
    dynamic: bool,
    filter: bool,
    add: Weights,
    mul: Weights,
    maps: FusedMaps,
) -> bool {
    &&& exists|used: (Vec<Scalar>, Vec<Scalar>)|
        {
            &&& weights_used(weigh, dynamic, add, mul, used)
            &&& #[trigger] call_ensures(
                fuse,
                (&used.0, &used.1),
                (maps.add, maps.mul, maps.hybrid),
            )
        }
    &&& filtered_map(keep, filter, maps.add, maps.add_filtered)
    &&& filtered_map(keep, filter, maps.mul, maps.mul_filtered)
    &&& filtered_map(keep, filter, maps.hybrid, maps.hybrid_filtered)
}

fn filter_map<K: Fn(&Vec<Scalar>) -> Vec<Scalar>>(keep: &K, filter: bool, map: &Vec<Scalar>) -> (out:
    Vec<Scalar>)
    requires
        forall|m: &Vec<Scalar>| #[trigger] call_requires(*keep, (m,)),
    ensures
        filtered_map(*keep, filter, *map, out),
{
    if filter {
        assert(call_requires(*keep, (map,)));
        keep(map)
    } else {
        let mut out: Vec<Scalar> = Vec::new();
        let mut i: usize = 0;
        while i < map.len()
            invariant
                i <= map@.len(),
                out@.len() == i,
                forall|k: int| #![trigger out@[k]] 0 <= k < i ==> out@[k] == map@[k],
            decreases map@.len() - i,
        {
            out.push(map[i]);
            i += 1;
        }
        assert(out@ =~= map@);
        out
    }
}

/// Without dynamic weighing the weights are used as they are, in their order, and
/// without a filter the filtered maps are the fused ones.
pub proof fn plain_fusion_is_plain<
    W: Fn(&Vec<Scalar>, &Vec<Scalar>) -> (Vec<Scalar>, Vec<Scalar>),
    F: Fn(&Vec<Scalar>, &Vec<Scalar>) -> (Vec<Scalar>, Vec<Scalar>, Vec<Scalar>),
    K: Fn(&Vec<Scalar>) -> Vec<Scalar>,
>(
    weigh: W,
    fuse: F,
    keep: K,
    dynamic: bool,
    filter: bool,
    add: Weights,
    mul: Weights,
    maps: FusedMaps,
) -> (used: (Vec<Scalar>, Vec<Scalar>))
    requires
        fused_by(weigh, fuse, keep, dynamic, filter, add, mul, maps),
    ensures
        call_ensures(fuse, (&used.0, &used.1), (maps.add, maps.mul, maps.hybrid)),
        !dynamic ==> used.0@ == add.listed() && used.1@ == mul.listed(),
        !filter ==> maps.add_filtered@ == maps.add@ && maps.mul_filtered@ == maps.mul@
            && maps.hybrid_filtered@ == maps.hybrid@,
        filter ==> call_ensures(keep, (&maps.add,), maps.add_filtered) && call_ensures(
            keep,
            (&maps.mul,),
            maps.mul_filtered,
        ) && call_ensures(keep, (&maps.hybrid,), maps.hybrid_filtered),
{
    choose|used: (Vec<Scalar>, Vec<Scalar>)|
        {
            &&& weights_used(weigh, dynamic, add, mul, used)
            &&& #[trigger] call_ensures(
                fuse,
                (&used.0, &used.1),
                (maps.add, maps.mul, maps.hybrid),
            )
        }
}

/// Fuses the features of an image and filters the result: `weigh` adapts the
/// weights where they are dynamic, `fuse` fuses the features by the weights, and
/// `keep` filters a map.
pub fn fuse_features<
    W: Fn(&Vec<Scalar>, &Vec<Scalar>) -> (Vec<Scalar>, Vec<Scalar>),
    F: Fn(&Vec<Scalar>, &Vec<Scalar>) -> (Vec<Scalar>, Vec<Scalar>, Vec<Scalar>),
    K: Fn(&Vec<Scalar>) -> Vec<Scalar>,
>(
    add: &Weights,
    mul: &Weights,
    dynamic: bool,
    filter: bool,
    weigh: &W,
    fuse: &F,
    keep: &K,
) -> (maps: FusedMaps)
    requires
        forall|a: &Vec<Scalar>, m: &Vec<Scalar>| #[trigger] call_requires(*weigh, (a, m)),
        forall|a: &Vec<Scalar>, m: &Vec<Scalar>| #[trigger] call_requires(*fuse, (a, m)),
        forall|m: &Vec<Scalar>| #[trigger] call_requires(*keep, (m,)),
    ensures
        fused_by(*weigh, *fuse, *keep, dynamic, filter, *add, *mul, maps),
{
    let base_add = weights_to_array(add);
    let base_mul = weights_to_array(mul);
    let used: (Vec<Scalar>, Vec<Scalar>) = if dynamic {
        assert(call_requires(*weigh, (&base_add, &base_mul)));
        let u = weigh(&base_add, &base_mul);
        assert(call_ensures(*weigh, (&base_add, &base_mul), u));
        u
    } else {
        (base_add, base_mul)
    };
    assert(weights_used(*weigh, dynamic, *add, *mul, used));
    assert(call_requires(*fuse, (&used.0, &used.1)));
    let fused = fuse(&used.0, &used.1);
    assert(call_ensures(*fuse, (&used.0, &used.1), fused));
    let plain_add = fused.0;
    let plain_mul = fused.1;
    let hybrid = fused.2;
    let add_filtered = filter_map(keep, filter, &plain_add);
    let mul_filtered = filter_map(keep, filter, &plain_mul);
    let hybrid_filtered = filter_map(keep, filter, &hybrid);
    let maps = FusedMaps {
        add: plain_add,
        mul: plain_mul,
        hybrid,
        add_filtered,
        mul_filtered,
        hybrid_filtered,
    };
    assert(call_ensures(*fuse, (&used.0, &used.1), (maps.add, maps.mul, maps.hybrid)));
    maps
}

/// The colour by regions with its score: that of the segmentation where there is
/// one, else the given colour with a score of zero.
pub fn region_color_or(
    segmented: Option<([Scalar; 3], Scalar)>,
    weighted: [Scalar; 3],
) -> (c: ([Scalar; 3], Scalar))
    ensures
        segmented is Some ==> c == segmented->Some_0,
        segmented is None ==> c.0 == weighted && c.1.bits == 0,
{
    match segmented {
        Some(c) => c,
        None => (weighted, Scalar::zero()),
    }
}

/// The files of maps that are written for an image, in order: the features up to
/// the subject prior; the segmentation's maps where they are asked for; the
/// remaining ones; and the fused ones, filtered too where there is a filter.
pub open spec fn map_files(diagnostics: bool, filter: bool) -> Seq<Seq<char>> {
    let early = all_features().take(11) + seq![all_features()[13]];
    let segment = if diagnostics {
        segment_maps() + seq!["segment_foreground"@]
    } else {
        Seq::empty()
    };
    let background = all_features().subrange(11, 13) + background_maps();
    let late = all_features().subrange(14, 18) + fused_maps().take(3);
    let filtered = if filter {
        fused_maps().subrange(3, 6)
    } else {
        Seq::empty()
    };
    early + segment + background + late + filtered
}

fn append_range(list: &mut Vec<String>, from: &Vec<String>, lo: usize, hi: usize)
    requires
        lo <= hi <= from@.len(),
    ensures
        texts_of(final(list)@) == texts_of(old(list)@) + texts_of(from@).subrange(
            lo as int,
            hi as int,
        ),
{
    let ghost start = list@;
    let mut i: usize = lo;
    assert(texts_of(start) + texts_of(from@).subrange(lo as int, lo as int) =~= texts_of(start));
    while i < hi
        invariant
            lo <= i <= hi <= from@.len(),
            texts_of(list@) == texts_of(start) + texts_of(from@).subrange(lo as int, i as int),
        decreases hi - i,
    {
        let s = String::from_str(from[i].as_str());
        let ghost before = list@;
        let ghost name = s@;
        list.push(s);
        assert(texts_of(list@) =~= texts_of(before).push(name));
        assert(texts_of(list@) =~= texts_of(start) + texts_of(from@).subrange(lo as int, i + 1));
        i += 1;
    }
}

/// Names of the maps that are written for an image.
pub fn map_file_names(diagnostics: bool, filter: bool) -> (list: Vec<String>)
    ensures
        texts_of(list@) == map_files(diagnostics, filter),
{
    let features = feature_names();
    let fused = fused_names();
    assert(features@.len() == all_features().len());
    assert(fused@.len() == fused_maps().len());
    let mut list: Vec<String> = Vec::new();
    assert(texts_of(list@) =~= Seq::empty());
    append_range(&mut list, &features, 0, 11);
    append_range(&mut list, &features, 13, 14);
    assert(texts_of(list@) =~= all_features().take(11) + seq![all_features()[13]]);
    if diagnostics {
        append_names(&mut list, segment_names());
        append_range(&mut list, &features, 18, 19);
    }
    append_range(&mut list, &features, 11, 13);
    append_names(&mut list, background_names());
    append_range(&mut list, &features, 14, 18);
    append_range(&mut list, &fused, 0, 3);
    if filter {
        append_range(&mut list, &fused, 3, 6);
    }
    assert(texts_of(list@) =~= map_files(diagnostics, filter));
    list
}

/// Asking for diagnostics adds the segmentation's maps behind the first twelve,
/// and a filter adds the filtered maps at the end; nothing else changes.
pub proof fn asking_adds_files(diagnostics: bool, filter: bool, i: int)
    requires
        0 <= i < map_files(false, false).len(),
    ensures
        map_files(true, filter).len() == map_files(false, filter).len() + segment_maps().len() + 1,
        map_files(true, filter)[12 + segment_maps().len() as int] == "segment_foreground"@,
        map_files(diagnostics, true) == map_files(diagnostics, false) + fused_maps().subrange(3, 6),
        i < 12 ==> map_files(diagnostics, filter)[i] == map_files(false, false)[i],
        i >= 12 && diagnostics ==> map_files(diagnostics, filter)[i + segment_maps().len() + 1]
            == map_files(false, false)[i],
{
    let seg = segment_maps() + seq!["segment_foreground"@];
    let none = Seq::<Seq<char>>::empty();
    let early = all_features().take(11) + seq![all_features()[13]];
    assert(early.len() == 12);
    assert(map_files(diagnostics, true) =~= map_files(diagnostics, false)
        + fused_maps().subrange(3, 6));
    assert(seg.len() == segment_maps().len() + 1);
    assert(none.len() == 0);
}

/// Where there is a filter, each fused map is filtered by itself.
pub proof fn filters_apply_to_each_map<
    W: Fn(&Vec<Scalar>, &Vec<Scalar>) -> (Vec<Scalar>, Vec<Scalar>),
    F: Fn(&Vec<Scalar>, &Vec<Scalar>) -> (Vec<Scalar>, Vec<Scalar>, Vec<Scalar>),
    K: Fn(&Vec<Scalar>) -> Vec<Scalar>,
>(weigh: W, fuse: F, keep: K, dynamic: bool, add: Weights, mul: Weights, maps: FusedMaps)
    requires
        fused_by(weigh, fuse, keep, dynamic, true, add, mul, maps),
    ensures
        call_ensures(keep, (&maps.add,), maps.add_filtered),
        call_ensures(keep, (&maps.mul,), maps.mul_filtered),
        call_ensures(keep, (&maps.hybrid,), maps.hybrid_filtered),
{
}

/// Where weights are dynamic, features are fused by what is made of the given
/// ones, each list in its place.
pub proof fn dynamic_weights_are_weighed<
    W: Fn(&Vec<Scalar>, &Vec<Scalar>) -> (Vec<Scalar>, Vec<Scalar>),
    F: Fn(&Vec<Scalar>, &Vec<Scalar>) -> (Vec<Scalar>, Vec<Scalar>, Vec<Scalar>),
    K: Fn(&Vec<Scalar>) -> Vec<Scalar>,
>(
    weigh: W,
    fuse: F,
    keep: K,
    filter: bool,
    add: Weights,
    mul: Weights,
    maps: FusedMaps,
) -> (r: (Vec<Scalar>, Vec<Scalar>, (Vec<Scalar>, Vec<Scalar>)))
    requires
        fused_by(weigh, fuse, keep, true, filter, add, mul, maps),
    ensures
        r.0@ == add.listed(),
        r.1@ == mul.listed(),
        call_ensures(weigh, (&r.0, &r.1), r.2),
        call_ensures(fuse, (&r.2.0, &r.2.1), (maps.add, maps.mul, maps.hybrid)),
{
    let used = choose|used: (Vec<Scalar>, Vec<Scalar>)|
        {
            &&& weights_used(weigh, true, add, mul, used)
            &&& #[trigger] call_ensures(
                fuse,
                (&used.0, &used.1),
                (maps.add, maps.mul, maps.hybrid),
            )
        };
    let (a, m) = choose|a: Vec<Scalar>, m: Vec<Scalar>|
        {
            &&& a@ == add.listed()
            &&& m@ == mul.listed()
            &&& #[trigger] call_ensures(weigh, (&a, &m), used)
        };
    (a, m, used)
}

} // verus!
