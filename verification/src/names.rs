//! Short labels for the pictures on a contact sheet.

use vstd::prelude::*;
use vstd::string::*;

verus! {

/// Whether two texts are the same.
pub fn same_text(a: &str, b: &str) -> (r: bool)
    ensures
        r == (a@ == b@),
{
    String::from_str(a) == String::from_str(b)
}

/// The label of a feature map; a map without a label keeps its name.
pub open spec fn feature_label(name: Seq<char>) -> Seq<char> {
    if name == "dct_complexity"@ {
        "DCT"@
    } else if name == "lab_gradient"@ {
        "LAB Grad"@
    } else if name == "spectral_residual"@ {
        "Spect Res"@
    } else if name == "global_light_residual"@ {
        "G-Light"@
    } else if name == "global_lab_a_residual"@ {
        "G-LabA"@
    } else if name == "global_lab_b_residual"@ {
        "G-LabB"@
    } else if name == "global_sat_residual"@ {
        "G-Sat"@
    } else if name == "local_light_residual"@ {
        "L-Light"@
    } else if name == "local_lab_a_residual"@ {
        "L-LabA"@
    } else if name == "local_lab_b_residual"@ {
        "L-LabB"@
    } else if name == "local_sat_residual"@ {
        "L-Sat"@
    } else if name == "background_mask_morph"@ {
        "BG Mask"@
    } else if name == "background_fg_confidence"@ {
        "BG Conf"@
    } else if name == "subject_prior"@ {
        "Subj Prior"@
    } else if name == "abs_light"@ {
        "Abs L*"@
    } else if name == "abs_lab_a"@ {
        "Abs a*"@
    } else if name == "abs_lab_b"@ {
        "Abs b*"@
    } else if name == "abs_sat"@ {
        "Abs Sat"@
    } else if name == "segment_foreground"@ {
        "Seg FG"@
    } else if name == "bg_candidate"@ {
        "BG Cand"@
    } else if name == "bg_barrier"@ {
        "BG Barr"@
    } else if name == "bg_mask_before_protect"@ {
        "BG Pre"@
    } else if name == "foreground_protect"@ {
        "FG Prot"@
    } else if name == "bg_mask_after_protect"@ {
        "BG Post"@
    } else if name == "fg_confidence"@ {
        "FG Conf"@
    } else if name == "segment_region_id"@ {
        "Seg ID"@
    } else if name == "segment_boundary"@ {
        "Seg Bound"@
    } else if name == "segment_bg_probability"@ {
        "Seg BG"@
    } else if name == "segment_saliency"@ {
        "Seg Sal"@
    } else if name == "segment_subject_confidence"@ {
        "Seg Subj"@
    } else {
        name
    }
}

/// The label of a feature map; a map without a label keeps its name.
pub fn shorten_feature_name(name: &str) -> (label: String)
    ensures
        label@ == feature_label(name@),
{
    if same_text(name, "dct_complexity") {
        String::from_str("DCT")
    } else if same_text(name, "lab_gradient") {
        String::from_str("LAB Grad")
    } else if same_text(name, "spectral_residual") {
        String::from_str("Spect Res")
    } else if same_text(name, "global_light_residual") {
        String::from_str("G-Light")
    } else if same_text(name, "global_lab_a_residual") {
        String::from_str("G-LabA")
    } else if same_text(name, "global_lab_b_residual") {
        String::from_str("G-LabB")
    } else if same_text(name, "global_sat_residual") {
        String::from_str("G-Sat")
    } else if same_text(name, "local_light_residual") {
        String::from_str("L-Light")
    } else if same_text(name, "local_lab_a_residual") {
        String::from_str("L-LabA")
    } else if same_text(name, "local_lab_b_residual") {
        String::from_str("L-LabB")
    } else if same_text(name, "local_sat_residual") {
        String::from_str("L-Sat")
    } else if same_text(name, "background_mask_morph") {
        String::from_str("BG Mask")
    } else if same_text(name, "background_fg_confidence") {
        String::from_str("BG Conf")
    } else if same_text(name, "subject_prior") {
        String::from_str("Subj Prior")
    } else if same_text(name, "abs_light") {
        String::from_str("Abs L*")
    } else if same_text(name, "abs_lab_a") {
        String::from_str("Abs a*")
    } else if same_text(name, "abs_lab_b") {
        String::from_str("Abs b*")
    } else if same_text(name, "abs_sat") {
        String::from_str("Abs Sat")
    } else if same_text(name, "segment_foreground") {
        String::from_str("Seg FG")
    } else if same_text(name, "bg_candidate") {
        String::from_str("BG Cand")
    } else if same_text(name, "bg_barrier") {
        String::from_str("BG Barr")
    } else if same_text(name, "bg_mask_before_protect") {
        String::from_str("BG Pre")
    } else if same_text(name, "foreground_protect") {
        String::from_str("FG Prot")
    } else if same_text(name, "bg_mask_after_protect") {
        String::from_str("BG Post")
    } else if same_text(name, "fg_confidence") {
        String::from_str("FG Conf")
    } else if same_text(name, "segment_region_id") {
        String::from_str("Seg ID")
    } else if same_text(name, "segment_boundary") {
        String::from_str("Seg Bound")
    } else if same_text(name, "segment_bg_probability") {
        String::from_str("Seg BG")
    } else if same_text(name, "segment_saliency") {
        String::from_str("Seg Sal")
    } else if same_text(name, "segment_subject_confidence") {
        String::from_str("Seg Subj")
    } else {
        String::from_str(name)
    }
}

/// The label of a fused map; a map without a label keeps its name.
pub open spec fn fused_label(name: Seq<char>) -> Seq<char> {
    if name == "fused_add"@ {
        "Fuse Add"@
    } else if name == "fused_softmul"@ {
        "Fuse Mult"@
    } else if name == "fused_hybrid"@ {
        "Fuse Hybrid"@
    } else if name == "fused_original_hybrid"@ {
        "Orig×Hyb"@
    } else if name == "fused_original_hybrid_nothreshold"@ {
        "Orig×Hyb(NT)"@
    } else if name == "fused_add_filtered"@ {
        "Filt Add"@
    } else if name == "fused_softmul_filtered"@ {
        "Filt Mult"@
    } else if name == "fused_hybrid_filtered"@ {
        "Filt Hybrid"@
    } else {
        name
    }
}

/// The label of a fused map; a map without a label keeps its name.
pub fn fuse_display_name(name: &str) -> (label: String)
    ensures
        label@ == fused_label(name@),
{
    if same_text(name, "fused_add") {
        String::from_str("Fuse Add")
    } else if same_text(name, "fused_softmul") {
        String::from_str("Fuse Mult")
    } else if same_text(name, "fused_hybrid") {
        String::from_str("Fuse Hybrid")
    } else if same_text(name, "fused_original_hybrid") {
        String::from_str("Orig×Hyb")
    } else if same_text(name, "fused_original_hybrid_nothreshold") {
        String::from_str("Orig×Hyb(NT)")
    } else if same_text(name, "fused_add_filtered") {
        String::from_str("Filt Add")
    } else if same_text(name, "fused_softmul_filtered") {
        String::from_str("Filt Mult")
    } else if same_text(name, "fused_hybrid_filtered") {
        String::from_str("Filt Hybrid")
    } else {
        String::from_str(name)
    }
}

/// The label of a map on a small sheet; a map without a label keeps its name.
pub open spec fn map_label(name: Seq<char>) -> Seq<char> {
    if name == "dct"@ {
        "DCT"@
    } else if name == "lab_grad"@ {
        "LAB Grad"@
    } else if name == "spectral"@ {
        "Spect Res"@
    } else if name == "local_light"@ {
        "L-Light"@
    } else if name == "local_sat"@ {
        "L-Sat"@
    } else if name == "bg_mask"@ {
        "BG Mask"@
    } else if name == "fg_confidence"@ {
        "FG Conf"@
    } else if name == "fused"@ {
        "Fused"@
    } else {
        name
    }
}

/// The label of a map on a small sheet; a map without a label keeps its name.
pub fn shorten_name(name: &str) -> (label: String)
    ensures
        label@ == map_label(name@),
{
    if same_text(name, "dct") {
        String::from_str("DCT")
    } else if same_text(name, "lab_grad") {
        String::from_str("LAB Grad")
    } else if same_text(name, "spectral") {
        String::from_str("Spect Res")
    } else if same_text(name, "local_light") {
        String::from_str("L-Light")
    } else if same_text(name, "local_sat") {
        String::from_str("L-Sat")
    } else if same_text(name, "bg_mask") {
        String::from_str("BG Mask")
    } else if same_text(name, "fg_confidence") {
        String::from_str("FG Conf")
    } else if same_text(name, "fused") {
        String::from_str("Fused")
    } else {
        String::from_str(name)
    }
}

/// A label is no longer than the name or sixteen letters.
pub proof fn feature_label_short(name: Seq<char>)
    ensures
        feature_label(name).len() <= 16 || feature_label(name) == name,
{
    reveal_strlit("DCT");
    reveal_strlit("LAB Grad");
    reveal_strlit("Spect Res");
    reveal_strlit("G-Light");
    reveal_strlit("G-LabA");
    reveal_strlit("G-LabB");
    reveal_strlit("G-Sat");
    reveal_strlit("L-Light");
    reveal_strlit("L-LabA");
    reveal_strlit("L-LabB");
    reveal_strlit("L-Sat");
    reveal_strlit("BG Mask");
    reveal_strlit("BG Conf");
    reveal_strlit("Subj Prior");
    reveal_strlit("Abs L*");
    reveal_strlit("Abs a*");
    reveal_strlit("Abs b*");
    reveal_strlit("Abs Sat");
    reveal_strlit("Seg FG");
    reveal_strlit("BG Cand");
    reveal_strlit("BG Barr");
    reveal_strlit("BG Pre");
    reveal_strlit("FG Prot");
    reveal_strlit("BG Post");
    reveal_strlit("FG Conf");
    reveal_strlit("Seg ID");
    reveal_strlit("Seg Bound");
    reveal_strlit("Seg BG");
    reveal_strlit("Seg Sal");
    reveal_strlit("Seg Subj");
}

/// A label is no longer than the name or sixteen letters.
pub proof fn fused_label_short(name: Seq<char>)
    ensures
        fused_label(name).len() <= 16 || fused_label(name) == name,
{
    reveal_strlit("Fuse Add");
    reveal_strlit("Fuse Mult");
    reveal_strlit("Fuse Hybrid");
    reveal_strlit("Orig×Hyb");
    reveal_strlit("Orig×Hyb(NT)");
    reveal_strlit("Filt Add");
    reveal_strlit("Filt Mult");
    reveal_strlit("Filt Hybrid");
}

/// A label is no longer than the name or sixteen letters.
pub proof fn map_label_short(name: Seq<char>)
    ensures
        map_label(name).len() <= 16 || map_label(name) == name,
{
    reveal_strlit("DCT");
    reveal_strlit("LAB Grad");
    reveal_strlit("Spect Res");
    reveal_strlit("L-Light");
    reveal_strlit("L-Sat");
    reveal_strlit("BG Mask");
    reveal_strlit("FG Conf");
    reveal_strlit("Fused");
}

/// Every feature and diagnostic map has its own label; any other name is kept.
pub proof fn feature_labels_belong(name: Seq<char>)
    ensures
        feature_label("dct_complexity"@) == "DCT"@,
        feature_label("lab_gradient"@) == "LAB Grad"@,
        feature_label("spectral_residual"@) == "Spect Res"@,
        feature_label("global_light_residual"@) == "G-Light"@,
        feature_label("global_lab_a_residual"@) == "G-LabA"@,
        feature_label("global_lab_b_residual"@) == "G-LabB"@,
        feature_label("global_sat_residual"@) == "G-Sat"@,
        feature_label("local_light_residual"@) == "L-Light"@,
        feature_label("local_lab_a_residual"@) == "L-LabA"@,
        feature_label("local_lab_b_residual"@) == "L-LabB"@,
        feature_label("local_sat_residual"@) == "L-Sat"@,
        feature_label("background_mask_morph"@) == "BG Mask"@,
        feature_label("background_fg_confidence"@) == "BG Conf"@,
        feature_label("subject_prior"@) == "Subj Prior"@,
        feature_label("abs_light"@) == "Abs L*"@,
        feature_label("abs_lab_a"@) == "Abs a*"@,
        feature_label("abs_lab_b"@) == "Abs b*"@,
        feature_label("abs_sat"@) == "Abs Sat"@,
        feature_label("segment_foreground"@) == "Seg FG"@,
        feature_label("bg_candidate"@) == "BG Cand"@,
        feature_label("bg_barrier"@) == "BG Barr"@,
        feature_label("bg_mask_before_protect"@) == "BG Pre"@,
        feature_label("foreground_protect"@) == "FG Prot"@,
        feature_label("bg_mask_after_protect"@) == "BG Post"@,
        feature_label("fg_confidence"@) == "FG Conf"@,
        feature_label("segment_region_id"@) == "Seg ID"@,
        feature_label("segment_boundary"@) == "Seg Bound"@,
        feature_label("segment_bg_probability"@) == "Seg BG"@,
        feature_label("segment_saliency"@) == "Seg Sal"@,
        feature_label("segment_subject_confidence"@) == "Seg Subj"@,
        name != "dct_complexity"@ && name != "lab_gradient"@ && name != "spectral_residual"@ && name != "global_light_residual"@ && name != "global_lab_a_residual"@ && name != "global_lab_b_residual"@ && name != "global_sat_residual"@ && name != "local_light_residual"@ && name != "local_lab_a_residual"@ && name != "local_lab_b_residual"@ && name != "local_sat_residual"@ && name != "background_mask_morph"@ && name != "background_fg_confidence"@ && name != "subject_prior"@ && name != "abs_light"@ && name != "abs_lab_a"@ && name != "abs_lab_b"@ && name != "abs_sat"@ && name != "segment_foreground"@ && name != "bg_candidate"@ && name != "bg_barrier"@ && name != "bg_mask_before_protect"@ && name != "foreground_protect"@ && name != "bg_mask_after_protect"@ && name != "fg_confidence"@ && name != "segment_region_id"@ && name != "segment_boundary"@ && name != "segment_bg_probability"@ && name != "segment_saliency"@ && name != "segment_subject_confidence"@ ==> feature_label(name) == name,
{
    reveal_strlit("dct_complexity");
    reveal_strlit("lab_gradient");
    reveal_strlit("spectral_residual");
    reveal_strlit("global_light_residual");
    reveal_strlit("global_lab_a_residual");
    reveal_strlit("global_lab_b_residual");
    reveal_strlit("global_sat_residual");
    reveal_strlit("local_light_residual");
    reveal_strlit("local_lab_a_residual");
    reveal_strlit("local_lab_b_residual");
    reveal_strlit("local_sat_residual");
    reveal_strlit("background_mask_morph");
    reveal_strlit("background_fg_confidence");
    reveal_strlit("subject_prior");
    reveal_strlit("abs_light");
    reveal_strlit("abs_lab_a");
    reveal_strlit("abs_lab_b");
    reveal_strlit("abs_sat");
    reveal_strlit("segment_foreground");
    reveal_strlit("bg_candidate");
    reveal_strlit("bg_barrier");
    reveal_strlit("bg_mask_before_protect");
    reveal_strlit("foreground_protect");
    reveal_strlit("bg_mask_after_protect");
    reveal_strlit("fg_confidence");
    reveal_strlit("segment_region_id");
    reveal_strlit("segment_boundary");
    reveal_strlit("segment_bg_probability");
    reveal_strlit("segment_saliency");
    reveal_strlit("segment_subject_confidence");
    assert("dct_complexity"@.len() == 14);
    assert("lab_gradient"@.len() == 12);
    assert("spectral_residual"@.len() == 17);
    assert("global_light_residual"@.len() == 21);
    assert("global_lab_a_residual"@.len() == 21);
    assert("global_lab_b_residual"@.len() == 21);
    assert("global_sat_residual"@.len() == 19);
    assert("local_light_residual"@.len() == 20);
    assert("local_lab_a_residual"@.len() == 20);
    assert("local_lab_b_residual"@.len() == 20);
    assert("local_sat_residual"@.len() == 18);
    assert("background_mask_morph"@.len() == 21);
    assert("background_fg_confidence"@.len() == 24);
    assert("subject_prior"@.len() == 13);
    assert("abs_light"@.len() == 9);
    assert("abs_lab_a"@.len() == 9);
    assert("abs_lab_b"@.len() == 9);
    assert("abs_sat"@.len() == 7);
    assert("segment_foreground"@.len() == 18);
    assert("bg_candidate"@.len() == 12);
    assert("bg_barrier"@.len() == 10);
    assert("bg_mask_before_protect"@.len() == 22);
    assert("foreground_protect"@.len() == 18);
    assert("bg_mask_after_protect"@.len() == 21);
    assert("fg_confidence"@.len() == 13);
    assert("segment_region_id"@.len() == 17);
    assert("segment_boundary"@.len() == 16);
    assert("segment_bg_probability"@.len() == 22);
    assert("segment_saliency"@.len() == 16);
    assert("segment_subject_confidence"@.len() == 26);
    assert("global_light_residual"@[8] != "global_lab_a_residual"@[8]);
    assert("global_light_residual"@[8] != "global_lab_b_residual"@[8]);
    assert("global_lab_a_residual"@[11] != "global_lab_b_residual"@[11]);
    assert("local_light_residual"@[7] != "local_lab_a_residual"@[7]);
    assert("local_light_residual"@[7] != "local_lab_b_residual"@[7]);
    assert("local_lab_a_residual"@[10] != "local_lab_b_residual"@[10]);
    assert("global_light_residual"@[0] != "background_mask_morph"@[0]);
    assert("global_lab_a_residual"@[0] != "background_mask_morph"@[0]);
    assert("global_lab_b_residual"@[0] != "background_mask_morph"@[0]);
    assert("abs_light"@[5] != "abs_lab_a"@[5]);
    assert("abs_light"@[5] != "abs_lab_b"@[5]);
    assert("abs_lab_a"@[8] != "abs_lab_b"@[8]);
    assert("local_sat_residual"@[0] != "segment_foreground"@[0]);
    assert("lab_gradient"@[0] != "bg_candidate"@[0]);
    assert("local_sat_residual"@[0] != "foreground_protect"@[0]);
    assert("segment_foreground"@[0] != "foreground_protect"@[0]);
    assert("global_light_residual"@[0] != "bg_mask_after_protect"@[0]);
    assert("global_lab_a_residual"@[0] != "bg_mask_after_protect"@[0]);
    assert("global_lab_b_residual"@[0] != "bg_mask_after_protect"@[0]);
    assert("background_mask_morph"@[1] != "bg_mask_after_protect"@[1]);
    assert("subject_prior"@[0] != "fg_confidence"@[0]);
    assert("spectral_residual"@[1] != "segment_region_id"@[1]);
    assert("bg_mask_before_protect"@[0] != "segment_bg_probability"@[0]);
    assert("segment_boundary"@[8] != "segment_saliency"@[8]);
}

/// Every fused map has its own label; any other name is kept.
pub proof fn fused_labels_belong(name: Seq<char>)
    ensures
        fused_label("fused_add"@) == "Fuse Add"@,
        fused_label("fused_softmul"@) == "Fuse Mult"@,
        fused_label("fused_hybrid"@) == "Fuse Hybrid"@,
        fused_label("fused_original_hybrid"@) == "Orig×Hyb"@,
        fused_label("fused_original_hybrid_nothreshold"@) == "Orig×Hyb(NT)"@,
        fused_label("fused_add_filtered"@) == "Filt Add"@,
        fused_label("fused_softmul_filtered"@) == "Filt Mult"@,
        fused_label("fused_hybrid_filtered"@) == "Filt Hybrid"@,
        name != "fused_add"@ && name != "fused_softmul"@ && name != "fused_hybrid"@ && name != "fused_original_hybrid"@ && name != "fused_original_hybrid_nothreshold"@ && name != "fused_add_filtered"@ && name != "fused_softmul_filtered"@ && name != "fused_hybrid_filtered"@ ==> fused_label(name) == name,
{
    reveal_strlit("fused_add");
    reveal_strlit("fused_softmul");
    reveal_strlit("fused_hybrid");
    reveal_strlit("fused_original_hybrid");
    reveal_strlit("fused_original_hybrid_nothreshold");
    reveal_strlit("fused_add_filtered");
    reveal_strlit("fused_softmul_filtered");
    reveal_strlit("fused_hybrid_filtered");
    assert("fused_add"@.len() == 9);
    assert("fused_softmul"@.len() == 13);
    assert("fused_hybrid"@.len() == 12);
    assert("fused_original_hybrid"@.len() == 21);
    assert("fused_original_hybrid_nothreshold"@.len() == 33);
    assert("fused_add_filtered"@.len() == 18);
    assert("fused_softmul_filtered"@.len() == 22);
    assert("fused_hybrid_filtered"@.len() == 21);
    assert("fused_original_hybrid"@[6] != "fused_hybrid_filtered"@[6]);
}

/// Every map of a small sheet has its own label; any other name is kept.
pub proof fn map_labels_belong(name: Seq<char>)
    ensures
        map_label("dct"@) == "DCT"@,
        map_label("lab_grad"@) == "LAB Grad"@,
        map_label("spectral"@) == "Spect Res"@,
        map_label("local_light"@) == "L-Light"@,
        map_label("local_sat"@) == "L-Sat"@,
        map_label("bg_mask"@) == "BG Mask"@,
        map_label("fg_confidence"@) == "FG Conf"@,
        map_label("fused"@) == "Fused"@,
        name != "dct"@ && name != "lab_grad"@ && name != "spectral"@ && name != "local_light"@ && name != "local_sat"@ && name != "bg_mask"@ && name != "fg_confidence"@ && name != "fused"@ ==> map_label(name) == name,
{
    reveal_strlit("dct");
    reveal_strlit("lab_grad");
    reveal_strlit("spectral");
    reveal_strlit("local_light");
    reveal_strlit("local_sat");
    reveal_strlit("bg_mask");
    reveal_strlit("fg_confidence");
    reveal_strlit("fused");
    assert("dct"@.len() == 3);
    assert("lab_grad"@.len() == 8);
    assert("spectral"@.len() == 8);
    assert("local_light"@.len() == 11);
    assert("local_sat"@.len() == 9);
    assert("bg_mask"@.len() == 7);
    assert("fg_confidence"@.len() == 13);
    assert("fused"@.len() == 5);
    assert("lab_grad"@[0] != "spectral"@[0]);
}

} // verus!
