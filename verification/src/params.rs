//! Settings and their defaults.

use vstd::prelude::*;
use crate::scalar::{Scalar, HUNDRED_BITS, ONE_BITS};

verus! {

/// Settings of colour segmentation.
#[derive(Clone, Copy, Debug, PartialEq, Eq, Structural)]
pub struct SegmentParams {
    /// Images are scaled down so that neither side exceeds this; small ones keep
    /// their size.
    pub preprocess_max_dim: u32,
    /// Regions with fewer pixels are merged.
    pub min_region_area: usize,
    /// Regions with a smaller share of the image count as small.
    pub min_cluster_area_ratio: Scalar,
    /// Sensitivity of edge detection.
    pub edge_threshold: Scalar,
    /// Edge strength that separates regions.
    pub edge_split_strength: Scalar,
    /// Exponent of edge compression; below 1 it raises medium edges.
    pub edge_gamma: Scalar,
    /// Edge strength up to which neighbours merge.
    pub edge_merge_strength: Scalar,
    /// Colour distance up to which neighbours merge.
    pub color_merge_distance: Scalar,
    /// Colour distance up to which small regions are absorbed.
    pub small_region_color_distance: Scalar,
    /// Whether small regions are merged.
    pub merge_small_regions: bool,
    /// Radius of the opening of the edge map, 0 for none.
    pub morph_open_radius: u8,
    /// Radius of the closing of the edge map, 0 for none.
    pub morph_close_radius: u8,
}

/// Default of `SegmentParams::preprocess_max_dim`.
pub fn default_preprocess_max_dim() -> (v: u32)
    ensures
        v == 512,
{
    512
}

/// Default of `SegmentParams::min_region_area`.
pub fn default_min_region_area() -> (v: usize)
    ensures
        v == 50,
{
    50
}

/// Default of `SegmentParams::merge_small_regions`.
pub fn default_merge_small_regions() -> (v: bool)
    ensures
        v,
{
    true
}

/// Default of `SegmentParams::morph_open_radius`.
pub fn default_morph_open_radius() -> (v: u8)
    ensures
        v == 0,
{
    0
}

/// Default of `SegmentParams::morph_close_radius`.
pub fn default_morph_close_radius() -> (v: u8)
    ensures
        v == 0,
{
    0
}

impl Default for SegmentParams {
    /// Sides up to 512, regions from 50 pixels or 0.001 of the image; edges
    /// from 0.15, separating from 0.4, merging up to 0.05, compressed by 0.65;
    /// colours merging up to 8, absorbed up to 24; no opening or closing.
    fn default() -> (p: SegmentParams)
        ensures
            p == (SegmentParams {
                preprocess_max_dim: 512,
                min_region_area: 50,
                min_cluster_area_ratio: Scalar { bits: 0x3F50_624D_D2F1_A9FC },
                edge_threshold: Scalar { bits: 0x3FC3_3333_3333_3333 },
                edge_split_strength: Scalar { bits: 0x3FD9_9999_9999_999A },
                edge_gamma: Scalar { bits: 0x3FE4_CCCC_CCCC_CCCD },
                edge_merge_strength: Scalar { bits: 0x3FA9_9999_9999_999A },
                color_merge_distance: Scalar { bits: 0x4020_0000_0000_0000 },
                small_region_color_distance: Scalar { bits: 0x4038_0000_0000_0000 },
                merge_small_regions: true,
                morph_open_radius: 0,
                morph_close_radius: 0,
            }),
    {
        SegmentParams {
            preprocess_max_dim: default_preprocess_max_dim(),
            min_region_area: default_min_region_area(),
            min_cluster_area_ratio: Scalar::new(0x3F50_624D_D2F1_A9FC),
            edge_threshold: Scalar::new(0x3FC3_3333_3333_3333),
            edge_split_strength: Scalar::new(0x3FD9_9999_9999_999A),
            edge_gamma: Scalar::new(0x3FE4_CCCC_CCCC_CCCD),
            edge_merge_strength: Scalar::new(0x3FA9_9999_9999_999A),
            color_merge_distance: Scalar::new(0x4020_0000_0000_0000),
            small_region_color_distance: Scalar::new(0x4038_0000_0000_0000),
            merge_small_regions: default_merge_small_regions(),
            morph_open_radius: default_morph_open_radius(),
            morph_close_radius: default_morph_close_radius(),
        }
    }
}

/// Settings of the spectral residual.
#[derive(Clone, Copy, Debug, PartialEq, Eq, Structural)]
pub struct SpectralResidualParams {
    /// Size of the mean filter, odd; 0 or 1 for none.
    pub mean_filter_kernel: u32,
    /// Sigma of the blur of the result.
    pub gaussian_sigma: Scalar,
    /// Exponent applied to the input.
    pub gamma: Scalar,
    /// Exponent applied to the result.
    pub post_gamma: Scalar,
}

impl Default for SpectralResidualParams {
    /// A 3 by 3 mean filter, a blur of sigma 3, exponents of 1.
    fn default() -> (p: SpectralResidualParams)
        ensures
            p == (SpectralResidualParams {
                mean_filter_kernel: 3,
                gaussian_sigma: Scalar { bits: 0x4008_0000_0000_0000 },
                gamma: Scalar { bits: ONE_BITS },
                post_gamma: Scalar { bits: ONE_BITS },
            }),
    {
        SpectralResidualParams {
            mean_filter_kernel: 3,
            gaussian_sigma: Scalar::new(0x4008_0000_0000_0000),
            gamma: Scalar::new(ONE_BITS),
            post_gamma: Scalar::new(ONE_BITS),
        }
    }
}

/// Settings of texture complexity.
#[derive(Clone, Copy, Debug, PartialEq, Eq, Structural)]
pub struct DctParams {
    /// Coefficients with `u + v` at least this count as high frequency.
    pub high_freq_threshold: usize,
}

impl Default for DctParams {
    /// High frequency from 3 on.
    fn default() -> (p: DctParams)
        ensures
            p == (DctParams { high_freq_threshold: 3 }),
    {
        DctParams { high_freq_threshold: 3 }
    }
}

impl DctParams {
    /// Whether the coefficient at `(u, v)` counts as high frequency; the constant
    /// term never does.
    pub fn is_high(&self, u: usize, v: usize) -> (r: bool)
        requires
            u + v <= usize::MAX,
        ensures
            r == ((u != 0 || v != 0) && u + v >= self.high_freq_threshold),
    {
        (u != 0 || v != 0) && u + v >= self.high_freq_threshold
    }
}

/// Settings of the impression colour.
#[derive(Clone, Copy, Debug, PartialEq, Eq, Structural)]
pub struct ImpressionParams {
    /// Number of clusters.
    pub k: usize,
    /// Greatest number of iterations.
    pub max_iter: usize,
}

impl Default for ImpressionParams {
    /// Four clusters, ten iterations.
    fn default() -> (p: ImpressionParams)
        ensures
            p == (ImpressionParams { k: 4, max_iter: 10 }),
    {
        ImpressionParams { k: 4, max_iter: 10 }
    }
}

/// Layout of a contact sheet.
#[derive(Clone, Copy, Debug, PartialEq, Eq, Structural)]
pub struct ContactSheetParams {
    pub cols: u32,
    pub rows: u32,
    pub pad: u32,
    pub thumb_w: u32,
    pub label_h: u32,
}

/// Where results go, and the layout of their contact sheet.
#[derive(Clone, Debug)]
pub struct OutputParams {
    pub dir: String,
    pub contact_sheet_cols: u32,
    pub contact_sheet_thumb_w: u32,
}

/// Settings of the division into colour clusters.
#[derive(Clone, Copy, Debug, PartialEq, Eq, Structural)]
pub struct ColorPartitionParams {
    pub enabled: bool,
    pub max_depth: usize,
    pub max_clusters: usize,
    pub variance_threshold: Scalar,
    pub min_cluster_area_ratio: Scalar,
    pub border_band: u32,
    pub bg_score_threshold: Scalar,
    pub bg_connect_threshold: Scalar,
    pub max_bg_ratio: Scalar,
}

/// Default of `ColorPartitionParams::enabled`.
pub fn default_true() -> (v: bool)
    ensures
        v,
{
    true
}

/// Default of `ColorPartitionParams::max_depth`.
pub fn default_max_depth() -> (v: usize)
    ensures
        v == 5,
{
    5
}

/// Default of `ColorPartitionParams::max_clusters`.
pub fn default_max_clusters() -> (v: usize)
    ensures
        v == 16,
{
    16
}

/// Default of `ColorPartitionParams::border_band`.
pub fn default_border_band() -> (v: u32)
    ensures
        v == 3,
{
    3
}

impl Default for ColorPartitionParams {
    /// Five cuts deep, 16 clusters, variance from 0.1, clusters from 0.01 of the
    /// image, a border of 3 pixels, background from a score of 0.55, linked up
    /// to 0.08, at most 0.85 of the image.
    fn default() -> (p: ColorPartitionParams)
        ensures
            p == (ColorPartitionParams {
                enabled: true,
                max_depth: 5,
                max_clusters: 16,
                variance_threshold: Scalar { bits: 0x3FB9_9999_9999_999A },
                min_cluster_area_ratio: Scalar { bits: 0x3F84_7AE1_47AE_147B },
                border_band: 3,
                bg_score_threshold: Scalar { bits: 0x3FE1_9999_9999_999A },
                bg_connect_threshold: Scalar { bits: 0x3FB4_7AE1_47AE_147B },
                max_bg_ratio: Scalar { bits: 0x3FEB_3333_3333_3333 },
            }),
    {
        ColorPartitionParams {
            enabled: default_true(),
            max_depth: default_max_depth(),
            max_clusters: default_max_clusters(),
            variance_threshold: Scalar::new(0x3FB9_9999_9999_999A),
            min_cluster_area_ratio: Scalar::new(0x3F84_7AE1_47AE_147B),
            border_band: default_border_band(),
            bg_score_threshold: Scalar::new(0x3FE1_9999_9999_999A),
            bg_connect_threshold: Scalar::new(0x3FB4_7AE1_47AE_147B),
            max_bg_ratio: Scalar::new(0x3FEB_3333_3333_3333),
        }
    }
}

/// Radii of the clean-up of a mask; a radius of 0 skips its step.
#[derive(Clone, Copy, Debug, PartialEq, Eq, Structural)]
pub struct MorphologyParams {
    pub open_radius: u32,
    pub close_radius: u32,
    pub erode_radius: u32,
}

/// Default of `MorphologyParams::open_radius`.
pub fn default_open_radius() -> (v: u32)
    ensures
        v == 2,
{
    2
}

/// Default of `MorphologyParams::close_radius`.
pub fn default_close_radius() -> (v: u32)
    ensures
        v == 8,
{
    8
}

/// Default of `MorphologyParams::erode_radius`.
pub fn default_erode_radius() -> (v: u32)
    ensures
        v == 3,
{
    3
}

impl Default for MorphologyParams {
    /// Opening by 2, closing by 8, erosion by 3.
    fn default() -> (p: MorphologyParams)
        ensures
            p == (MorphologyParams { open_radius: 2, close_radius: 8, erode_radius: 3 }),
    {
        MorphologyParams {
            open_radius: default_open_radius(),
            close_radius: default_close_radius(),
            erode_radius: default_erode_radius(),
        }
    }
}

/// How the fused map is filtered.
#[derive(Clone, Debug)]
pub struct FilterParams {
    /// `threshold` or `quantile`.
    pub method: String,
    /// Values below are dropped; in `[0, 1]`.
    pub threshold: Option<Scalar>,
    /// Whether the map is normalised first.
    pub normalize_before: Option<bool>,
    /// The share that is kept, in percent; in `(0, 100]`.
    pub quantile: Option<Scalar>,
}

/// What is wrong with a filter.
#[derive(Clone, Copy, Debug, PartialEq, Eq, Structural)]
pub enum FilterError {
    /// The method is `threshold`, but a quantile is set too.
    QuantileConflict,
    /// The method is `threshold`, and no threshold is set.
    ThresholdMissing,
    /// The threshold is not in `[0, 1]`.
    ThresholdRange,
    /// The method is `quantile`, but a threshold is set too.
    ThresholdConflict,
    /// The method is `quantile`, and no quantile is set.
    QuantileMissing,
    /// The quantile is not in `(0, 100]`.
    QuantileRange,
    /// There is no such method.
    UnknownMethod,
}

/// What `validate_filter` answers.
pub open spec fn filter_verdict(f: FilterParams) -> Result<(), FilterError> {
    let zero = Scalar { bits: 0 };
    let one = Scalar { bits: ONE_BITS };
    let hundred = Scalar { bits: HUNDRED_BITS };
    if f.method@ == "threshold"@ {
        if f.quantile is Some {
            Err(FilterError::QuantileConflict)
        } else if f.threshold is None {
            Err(FilterError::ThresholdMissing)
        } else if !(zero.le(f.threshold->Some_0) && f.threshold->Some_0.le(one)) {
            Err(FilterError::ThresholdRange)
        } else {
            Ok(())
        }
    } else if f.method@ == "quantile"@ {
        if f.threshold is Some {
            Err(FilterError::ThresholdConflict)
        } else if f.quantile is None {
            Err(FilterError::QuantileMissing)
        } else if !(zero.lt(f.quantile->Some_0) && f.quantile->Some_0.le(hundred)) {
            Err(FilterError::QuantileRange)
        } else {
            Ok(())
        }
    } else {
        Err(FilterError::UnknownMethod)
    }
}

/// A filter by threshold is valid exactly with a threshold between zero and one and
/// without a quantile; one by quantile exactly with a quantile above zero and up to
/// one hundred and without a threshold; no other filter is.
pub proof fn valid_filters(f: FilterParams)
    ensures
        f.method@ == "threshold"@ ==> (filter_verdict(f) is Ok <==> f.quantile is None
            && f.threshold is Some && (Scalar { bits: 0 }).le(f.threshold->Some_0)
            && f.threshold->Some_0.le(Scalar { bits: 0x3FF0_0000_0000_0000 })),
        f.method@ == "quantile"@ ==> (filter_verdict(f) is Ok <==> f.threshold is None
            && f.quantile is Some && (Scalar { bits: 0 }).lt(f.quantile->Some_0)
            && f.quantile->Some_0.le(Scalar { bits: 0x4059_0000_0000_0000 })),
        filter_verdict(f) == Err::<(), FilterError>(FilterError::UnknownMethod) <==> f.method@
            != "threshold"@ && f.method@ != "quantile"@,
        f.method@ == "threshold"@ && f.quantile is Some ==> filter_verdict(f) == Err::<
            (),
            FilterError,
        >(FilterError::QuantileConflict),
        f.method@ == "quantile"@ && f.threshold is Some ==> filter_verdict(f) == Err::<
            (),
            FilterError,
        >(FilterError::ThresholdConflict),
        f.method@ == "threshold"@ && f.quantile is None && f.threshold is None ==> filter_verdict(f)
            == Err::<(), FilterError>(FilterError::ThresholdMissing),
        f.method@ == "quantile"@ && f.threshold is None && f.quantile is None ==> filter_verdict(f)
            == Err::<(), FilterError>(FilterError::QuantileMissing),
{
    reveal_strlit("threshold");
    reveal_strlit("quantile");
    assert("threshold"@.len() == 9 && "quantile"@.len() == 8);
}

/// Checks that exactly one method is set up, with a value in range.
pub fn validate_filter(filter: &FilterParams) -> (r: Result<(), FilterError>)
    ensures
        r == filter_verdict(*filter),
{
    let zero = Scalar::zero();
    let one = Scalar::new(ONE_BITS);
    let hundred = Scalar::new(HUNDRED_BITS);
    if filter.method == String::from_str("threshold") {
        if filter.quantile.is_some() {
            return Err(FilterError::QuantileConflict);
        }
        match filter.threshold {
            None => Err(FilterError::ThresholdMissing),
            Some(t) => if zero.at_most(&t) && t.at_most(&one) {
                Ok(())
            } else {
                Err(FilterError::ThresholdRange)
            },
        }
    } else if filter.method == String::from_str("quantile") {
        if filter.threshold.is_some() {
            return Err(FilterError::ThresholdConflict);
        }
        match filter.quantile {
            None => Err(FilterError::QuantileMissing),
            Some(q) => if zero.less(&q) && q.at_most(&hundred) {
                Ok(())
            } else {
                Err(FilterError::QuantileRange)
            },
        }
    } else {
        Err(FilterError::UnknownMethod)
    }
}

} // verus!
