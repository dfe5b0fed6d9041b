//! The page of clusters: every image with its clusters, with and without
//! complexity and coordinates.

use vstd::prelude::*;
use vstd::string::*;
use crate::page_palette::{count_pixels, pixel_count, safe, time_text, time_words, ImageText};
use crate::scalar::Scalar;
use crate::text::{
    decimal, escaped_adds_no_marks, escaped_text, html_escape, occurrences, occurrences_add_up,
    push_decimal,
};

verus! {

/// A cluster in words: its numbers in digits.
#[derive(Clone, Debug)]
pub struct ClusterText {
    pub hex: String,
    pub lightness: String,
    pub share: String,
    pub complexity: String,
    pub score: String,
    /// Mean place of the cluster's pixels.
    pub avg_x: Scalar,
    pub avg_y: Scalar,
    /// The same in digits.
    pub x: String,
    pub y: String,
}

/// Clusters with the dominant one, and how long they took.
#[derive(Clone, Debug)]
pub struct ClustersText {
    pub clusters: Vec<ClusterText>,
    pub dominant: ClusterText,
    /// Time in whole milliseconds.
    pub millis: u64,
    /// Time in seconds, in digits.
    pub seconds: String,
}

/// An image with its clusters.
#[derive(Clone, Debug)]
pub struct ImageClusters {
    pub img: ImageText,
    pub kmeans: ClustersText,
    pub minibatch: ClustersText,
    pub kmeans_base: ClustersText,
    pub minibatch_base: ClustersText,
    pub kmeans_6d: ClustersText,
    pub minibatch_6d: ClustersText,
}

/// Totals over all runs.
#[derive(Clone, Debug)]
pub struct RunTotals {
    /// Total time in seconds, in digits.
    pub seconds: String,
    /// Average time in whole milliseconds.
    pub average_millis: u64,
}

/// The head of the page.
pub const CLUSTER_PAGE_HEAD: &'static str = r#"<!DOCTYPE html>
<html lang="zh-CN">
<head>
<meta charset="UTF-8">
<meta name="viewport" content="width=device-width, initial-scale=1.0">
<title>DCT‑Enhanced Color Extraction</title>
<style>
:root {
    --bg: #0f0f1a;
    --card: #1a1a2e;
    --card-hover: #1f1f3a;
    --text: #e0e0e0;
    --text-dim: #888;
    --accent: #6c63ff;
    --complexity: #ff9f43;
    --border: #2a2a4a;
}
* { margin: 0; padding: 0; box-sizing: border-box; }
body {
    background: var(--bg);
    color: var(--text);
    font-family: -apple-system, BlinkMacSystemFont, 'Segoe UI', Roboto, sans-serif;
    line-height: 1.5;
    padding: 20px;
}
header {
    text-align: center;
    padding: 40px 20px;
    border-bottom: 2px solid var(--border);
    margin-bottom: 30px;
}
header h1 { font-size: 2rem; color: var(--accent); margin-bottom: 8px; }
header p { color: var(--text-dim); }
header .subtitle {
    font-size: 0.85rem;
    color: var(--text-dim);
    margin-top: 6px;
}
.summary-stats {
    display: flex;
    justify-content: center;
    gap: 30px;
    margin-top: 15px;
    flex-wrap: wrap;
}
.stat { text-align: center; }
.stat-value { font-size: 2rem; font-weight: bold; color: var(--accent); }
.stat-label { font-size: 0.8rem; color: var(--text-dim); text-transform: uppercase; }
.image-section {
    background: var(--card);
    border-radius: 12px;
    padding: 25px;
    margin-bottom: 30px;
    border: 1px solid var(--border);
}
.image-section h2 {
    font-size: 1.4rem;
    margin-bottom: 5px;
    color: #fff;
}
.image-meta {
    color: var(--text-dim);
    font-size: 0.85rem;
    margin-bottom: 15px;
}
.image-preview {
    max-width: 100%;
    border-radius: 8px;
    margin-bottom: 20px;
    border: 1px solid var(--border);
}
.algo-section {
    margin-bottom: 25px;
}
.algo-section h3 {
    font-size: 1.15rem;
    color: var(--accent);
    padding-bottom: 8px;
    border-bottom: 1px solid var(--border);
    margin-bottom: 15px;
}
.algo-desc {
    font-size: 0.8rem;
    color: var(--text-dim);
    margin-bottom: 12px;
}
.dominant-section {
    display: flex;
    align-items: center;
    gap: 20px;
    margin-bottom: 18px;
    padding: 12px;
    background: rgba(108, 99, 255, 0.08);
    border-radius: 8px;
    border-left: 3px solid var(--accent);
}
.dominant-label {
    font-size: 0.8rem;
    color: var(--accent);
    text-transform: uppercase;
    letter-spacing: 0.5px;
    font-weight: 600;
    white-space: nowrap;
}
.dominant-swatch {
    width: 80px;
    height: 80px;
    border-radius: 10px;
    border: 2px solid var(--border);
    box-shadow: 0 4px 15px rgba(0,0,0,0.3);
}
.dominant-info {
    display: flex;
    flex-direction: column;
    gap: 3px;
}
.dominant-hex {
    font-family: 'SF Mono', 'Fira Code', monospace;
    font-size: 0.95rem;
    font-weight: 600;
}
.dominant-proportion {
    font-size: 0.75rem;
    color: var(--text-dim);
}
.palette-section { margin-top: 5px; }
.palette-section h4 {
    font-size: 0.8rem;
    color: var(--text-dim);
    margin-bottom: 10px;
    text-transform: uppercase;
    letter-spacing: 0.5px;
}
.palette {
    display: flex;
    gap: 4px;
    flex-wrap: wrap;
}
.swatch-card {
    display: flex;
    flex-direction: column;
    align-items: center;
    gap: 2px;
    width: 76px;
}
.color-block {
    width: 76px;
    height: 42px;
    border-radius: 6px;
    border: 1px solid rgba(255,255,255,0.1);
    box-shadow: 0 1px 6px rgba(0,0,0,0.2);
    transition: transform 0.15s;
}
.color-block:hover { transform: scale(1.08); }
.swatch-hex {
    font-family: 'SF Mono', 'Fira Code', monospace;
    font-size: 0.62rem;
    color: #ccc;
}
.swatch-lab {
    font-size: 0.6rem;
    color: var(--text-dim);
}
.swatch-pct {
    font-size: 0.55rem;
    color: var(--text-dim);
}
.complexity-badge {
    display: inline-flex;
    align-items: center;
    gap: 4px;
    background: rgba(255, 159, 67, 0.12);
    color: var(--complexity);
    padding: 0 6px;
    border-radius: 8px;
    font-size: 0.58rem;
    font-weight: 600;
    font-family: 'SF Mono', 'Fira Code', monospace;
}
.runtime-badge {
    background: #2a2a4a;
    color: #aaa;
    padding: 3px 10px;
    border-radius: 12px;
    font-size: 0.75rem;
    font-weight: normal;
    font-family: 'SF Mono', 'Fira Code', monospace;
    margin-left: 8px;
}
footer {
    text-align: center;
    padding: 30px;
    color: var(--text-dim);
    font-size: 0.8rem;
    border-top: 1px solid var(--border);
    margin-top: 30px;
}
</style>
</head>
"#;

/// A cluster has a place if either mean coordinate is positive.
pub open spec fn has_place(c: ClusterText) -> bool {
    (Scalar { bits: 0 }).lt(c.avg_x) || (Scalar { bits: 0 }).lt(c.avg_y)
}

fn placed(c: &ClusterText) -> (r: bool)
    ensures
        r == has_place(*c),
{
    let zero = Scalar::zero();
    zero.less(&c.avg_x) || zero.less(&c.avg_y)
}

/// The place of a cluster in words.
pub open spec fn place_after(html: Seq<char>, c: ClusterText) -> Seq<char> {
    let html = html + "xy=("@;
    let html = html + c.x@;
    let html = html + ","@;
    let html = html + c.y@;
    html + ")"@
}

fn write_place(html: &mut String, c: &ClusterText)
    ensures
        final(html)@ == place_after(old(html)@, *c),
{
    html.append("xy=(");
    html.append(c.x.as_str());
    html.append(",");
    html.append(c.y.as_str());
    html.append(")");
}

/// The place of the dominant cluster behind its other numbers, if it has one.
pub open spec fn note_after(html: Seq<char>, c: ClusterText) -> Seq<char> {
    if has_place(c) {
        place_after(html + " | "@, c)
    } else {
        html
    }
}

fn write_note(html: &mut String, c: &ClusterText)
    ensures
        final(html)@ == note_after(old(html)@, *c),
{
    if placed(c) {
        html.append(" | ");
        write_place(html, c);
    }
}

/// The badge with a cluster's place, if it has one.
pub open spec fn badge_after(html: Seq<char>, c: ClusterText) -> Seq<char> {
    if has_place(c) {
        let html = html
            + "<span class=\"complexity-badge\" style=\"background:rgba(0,200,150,0.12);color:#0c9;\">"@;
        place_after(html, c) + "</span>\n"@
    } else {
        html
    }
}

fn write_badge(html: &mut String, c: &ClusterText)
    ensures
        final(html)@ == badge_after(old(html)@, *c),
{
    if placed(c) {
        html.append(
            "<span class=\"complexity-badge\" style=\"background:rgba(0,200,150,0.12);color:#0c9;\">",
        );
        write_place(html, c);
        html.append("</span>\n");
    }
}

/// The page with the card of a cluster appended.
pub open spec fn cluster_after(html: Seq<char>, c: ClusterText) -> Seq<char> {
    let html = html + "<div class=\"swatch-card\">\n<div class=\"color-block\" style=\"background:"@;
    let html = html + c.hex@;
    let html = html + ";\"></div>\n<span class=\"swatch-hex\">"@;
    let html = html + c.hex@;
    let html = html + "</span>\n<span class=\"swatch-lab\">L* "@;
    let html = html + c.lightness@;
    let html = html + "</span>\n<span class=\"swatch-pct\">"@;
    let html = html + c.share@;
    let html = html + "%</span>\n<span class=\"complexity-badge\">c="@;
    let html = html + c.complexity@;
    let html = html + "</span>\n"@;
    let html = badge_after(html, c);
    let html = html + "<span class=\"complexity-badge\" style=\"background:rgba(108,99,255,0.1);color:var(--accent);\">s="@;
    let html = html + c.score@;
    let html = html + "</span>\n</div>\n"@;
    html
}

/// Appends the card of a cluster.
pub fn write_cluster(html: &mut String, c: &ClusterText)
    ensures
        final(html)@ == cluster_after(old(html)@, *c),
{
    html.append("<div class=\"swatch-card\">\n<div class=\"color-block\" style=\"background:");
    html.append(c.hex.as_str());
    html.append(";\"></div>\n<span class=\"swatch-hex\">");
    html.append(c.hex.as_str());
    html.append("</span>\n<span class=\"swatch-lab\">L* ");
    html.append(c.lightness.as_str());
    html.append("</span>\n<span class=\"swatch-pct\">");
    html.append(c.share.as_str());
    html.append("%</span>\n<span class=\"complexity-badge\">c=");
    html.append(c.complexity.as_str());
    html.append("</span>\n");
    write_badge(html, c);
    html.append("<span class=\"complexity-badge\" style=\"background:rgba(108,99,255,0.1);color:var(--accent);\">s=");
    html.append(c.score.as_str());
    html.append("</span>\n</div>\n");
}

/// Appends the cards of clusters, for the first `k`.
pub open spec fn clusters_after(html: Seq<char>, clusters: Seq<ClusterText>, k: int) -> Seq<char>
    decreases k,
{
    if k <= 0 {
        html
    } else {
        cluster_after(clusters_after(html, clusters, k - 1), clusters[k - 1])
    }
}

/// Appends the cards of clusters.
pub fn write_clusters(html: &mut String, clusters: &Vec<ClusterText>)
    ensures
        final(html)@ == clusters_after(old(html)@, clusters@, clusters@.len() as int),
{
    let ghost start = html@;
    let mut i: usize = 0;
    while i < clusters.len()
        invariant
            i <= clusters@.len(),
            html@ == clusters_after(start, clusters@, i as int),
        decreases clusters@.len() - i,
    {
        write_cluster(html, &clusters[i]);
        i += 1;
    }
}

/// The page with the section of a run appended.
pub open spec fn section_after(html: Seq<char>, name: Seq<char>, desc: Seq<char>, r: ClustersText) -> Seq<char> {
    let html = html + "<section class=\"algo-section\">\n<h3>"@;
    let html = html + name;
    let html = html + " <span class=\"runtime-badge\">"@;
    let html = html + time_text(r.millis, r.seconds@);
    let html = html + "</span></h3>\n<div class=\"algo-desc\">"@;
    let html = html + desc;
    let html = html + "</div>\n<div class=\"dominant-section\">\n<span class=\"dominant-label\">Dominant</span>\n<div class=\"dominant-swatch\" style=\"background:"@;
    let html = html + r.dominant.hex@;
    let html = html + ";\"></div>\n<div class=\"dominant-info\">\n<span class=\"dominant-hex\">"@;
    let html = html + r.dominant.hex@;
    let html = html + "</span>\n<span class=\"dominant-proportion\">"@;
    let html = html + r.dominant.share@;
    let html = html + "% of pixels | L* "@;
    let html = html + r.dominant.lightness@;
    let html = html + " | c="@;
    let html = html + r.dominant.complexity@;
    let html = note_after(html, r.dominant);
    let html = html + "</span>\n<span class=\"dominant-proportion\" style=\"color:var(--complexity);font-weight:600;\">score = softmax(p) × softmax(c) = "@;
    let html = html + r.dominant.score@;
    let html = html + "</span>\n</div>\n</div>\n<div class=\"palette-section\">\n<h4>All Clusters (dark → light)</h4>\n<div class=\"palette\">\n"@;
    let html = clusters_after(html, r.clusters@, r.clusters@.len() as int);
    let html = html + "</div>\n</div>\n</section>\n"@;
    html
}

/// Appends the section of a run.
pub fn write_algo_section(html: &mut String, name: &str, desc: &str, r: &ClustersText)
    ensures
        final(html)@ == section_after(old(html)@, name@, desc@, *r),
{
    html.append("<section class=\"algo-section\">\n<h3>");
    html.append(name);
    html.append(" <span class=\"runtime-badge\">");
    let time = time_words(r.millis, r.seconds.as_str());
    html.append(time.as_str());
    html.append("</span></h3>\n<div class=\"algo-desc\">");
    html.append(desc);
    html.append("</div>\n<div class=\"dominant-section\">\n<span class=\"dominant-label\">Dominant</span>\n<div class=\"dominant-swatch\" style=\"background:");
    html.append(r.dominant.hex.as_str());
    html.append(";\"></div>\n<div class=\"dominant-info\">\n<span class=\"dominant-hex\">");
    html.append(r.dominant.hex.as_str());
    html.append("</span>\n<span class=\"dominant-proportion\">");
    html.append(r.dominant.share.as_str());
    html.append("% of pixels | L* ");
    html.append(r.dominant.lightness.as_str());
    html.append(" | c=");
    html.append(r.dominant.complexity.as_str());
    write_note(html, &r.dominant);
    html.append("</span>\n<span class=\"dominant-proportion\" style=\"color:var(--complexity);font-weight:600;\">score = softmax(p) × softmax(c) = ");
    html.append(r.dominant.score.as_str());
    html.append("</span>\n</div>\n</div>\n<div class=\"palette-section\">\n<h4>All Clusters (dark → light)</h4>\n<div class=\"palette\">\n");
    write_clusters(html, &r.clusters);
    html.append("</div>\n</div>\n</section>\n");
}

/// The page with the section of an image appended.
pub open spec fn image_clusters_after(html: Seq<char>, r: ImageClusters) -> Seq<char> {
    let html = html + "<section class=\"image-section\">\n<h2>"@;
    let html = html + safe(r.img.filename@);
    let html = html + "</h2>\n<div class=\"image-meta\">"@;
    let html = html + decimal(r.img.width as int);
    let html = html + "×"@;
    let html = html + decimal(r.img.height as int);
    let html = html + " px ("@;
    let html = html + decimal(pixel_count(r.img.width, r.img.height) as int);
    let html = html + " pixels)</div>\n<img class=\"image-preview\" src=\""@;
    let html = html + r.img.preview@;
    let html = html + "\" alt=\""@;
    let html = html + safe(r.img.filename@);
    let html = html + "\" loading=\"lazy\" />\n"@;
    let html = section_after(html, "K‑Means++ (Baseline)"@, "kmeans++ — 仅 CIELAB 3D，无复杂度维度"@, r.kmeans_base);
    let html = section_after(html, "Mini‑Batch K‑Means (Baseline)"@, "minibatch — 仅 CIELAB 3D，无复杂度维度"@, r.minibatch_base);
    let html = section_after(html, "K‑Means++ (with c)"@, "kmeans++ — CIELAB 4D，含 DCT 复杂度"@, r.kmeans);
    let html = section_after(html, "Mini‑Batch K‑Means (with c)"@, "minibatch — CIELAB 4D，含 DCT 复杂度"@, r.minibatch);
    let html = section_after(html, "K‑Means++ (c + xy)"@, "kmeans++ — CIELAB 6D，含 DCT 复杂度 + 像素坐标 (x,y)"@, r.kmeans_6d);
    let html = section_after(html, "Mini‑Batch K‑Means (c + xy)"@, "minibatch — CIELAB 6D，含 DCT 复杂度 + 像素坐标 (x,y)"@, r.minibatch_6d);
    let html = html + "</section>\n"@;
    html
}

/// Appends the section of an image.
pub fn write_image_clusters(html: &mut String, r: &ImageClusters)
    ensures
        final(html)@ == image_clusters_after(old(html)@, *r),
{
    html.append("<section class=\"image-section\">\n<h2>");
    let name = html_escape(r.img.filename.as_str());
    html.append(name.as_str());
    html.append("</h2>\n<div class=\"image-meta\">");
    push_decimal(html, r.img.width as u64);
    html.append("×");
    push_decimal(html, r.img.height as u64);
    html.append(" px (");
    push_decimal(html, count_pixels(r.img.width, r.img.height) as u64);
    html.append(" pixels)</div>\n<img class=\"image-preview\" src=\"");
    html.append(r.img.preview.as_str());
    html.append("\" alt=\"");
    html.append(name.as_str());
    html.append("\" loading=\"lazy\" />\n");
    write_algo_section(html, "K‑Means++ (Baseline)", "kmeans++ — 仅 CIELAB 3D，无复杂度维度", &r.kmeans_base);
    write_algo_section(html, "Mini‑Batch K‑Means (Baseline)", "minibatch — 仅 CIELAB 3D，无复杂度维度", &r.minibatch_base);
    write_algo_section(html, "K‑Means++ (with c)", "kmeans++ — CIELAB 4D，含 DCT 复杂度", &r.kmeans);
    write_algo_section(html, "Mini‑Batch K‑Means (with c)", "minibatch — CIELAB 4D，含 DCT 复杂度", &r.minibatch);
    write_algo_section(html, "K‑Means++ (c + xy)", "kmeans++ — CIELAB 6D，含 DCT 复杂度 + 像素坐标 (x,y)", &r.kmeans_6d);
    write_algo_section(html, "Mini‑Batch K‑Means (c + xy)", "minibatch — CIELAB 6D，含 DCT 复杂度 + 像素坐标 (x,y)", &r.minibatch_6d);
    html.append("</section>\n");
}

/// Appends the sections of images, for the first `k`.
pub open spec fn all_images_after(html: Seq<char>, images: Seq<ImageClusters>, k: int) -> Seq<char>
    decreases k,
{
    if k <= 0 {
        html
    } else {
        image_clusters_after(all_images_after(html, images, k - 1), images[k - 1])
    }
}

/// Appends the sections of images.
pub fn write_all_images(html: &mut String, images: &Vec<ImageClusters>)
    ensures
        final(html)@ == all_images_after(old(html)@, images@, images@.len() as int),
{
    let ghost start = html@;
    let mut i: usize = 0;
    while i < images.len()
        invariant
            i <= images@.len(),
            html@ == all_images_after(start, images@, i as int),
        decreases images@.len() - i,
    {
        write_image_clusters(html, &images[i]);
        i += 1;
    }
}

/// Number of clusters of the first image.
pub open spec fn clusters_per_image(images: Seq<ImageClusters>) -> int {
    if images.len() == 0 {
        0
    } else {
        images[0].kmeans.clusters@.len() as int
    }
}

fn first_clusters(images: &Vec<ImageClusters>) -> (n: usize)
    ensures
        n == clusters_per_image(images@),
{
    if images.len() == 0 {
        0
    } else {
        images[0].kmeans.clusters.len()
    }
}

/// The page with its body appended.
pub open spec fn cluster_body_after(html: Seq<char>, images: Seq<ImageClusters>, total: RunTotals) -> Seq<char> {
    let html = html + "<body>\n<header>\n<h1>🎨 DCT‑Enhanced Color Extraction</h1>\n<p>K‑Means++ &amp; Mini‑Batch K‑Means — CIELAB ± DCT complexity ± Coordinates (3D / 4D / 6D)</p>\n<div class=\"subtitle\">\nEach pixel is represented in <strong>CIELAB</strong> colour space augmented with a 4<sup>th</sup> dimension <strong>c</strong> = local high‑frequency ratio from DCT,<br>\nand optionally <strong>normalised pixel coordinates (x, y)</strong> as the 5<sup>th</sup> &amp; 6<sup>th</sup> dimensions,<br>\nhelping the clustering distinguish regions with similar colour but different textures or spatial positions.\n</div>\n<div class=\"summary-stats\">\n<div class=\"stat\"><div class=\"stat-value\">"@;
    let html = html + decimal(images.len() as int);
    let html = html + "</div><div class=\"stat-label\">Images</div></div>\n<div class=\"stat\"><div class=\"stat-value\">"@;
    let html = html + decimal(clusters_per_image(images) as int);
    let html = html + "</div><div class=\"stat-label\">Clusters per Image</div></div>\n<div class=\"stat\"><div class=\"stat-value\">"@;
    let html = html + total.seconds@;
    let html = html + "s</div><div class=\"stat-label\">Total Time</div></div>\n<div class=\"stat\"><div class=\"stat-value\">"@;
    let html = html + decimal(total.average_millis as int);
    let html = html + "ms</div><div class=\"stat-label\">Avg per Run</div></div>\n</div>\n</header>\n"@;
    let html = all_images_after(html, images, images.len() as int);
    html
}

/// Appends the body of the page.
pub fn write_body(html: &mut String, images: &Vec<ImageClusters>, total: &RunTotals)
    ensures
        final(html)@ == cluster_body_after(old(html)@, images@, *total),
{
    html.append("<body>\n<header>\n<h1>🎨 DCT‑Enhanced Color Extraction</h1>\n<p>K‑Means++ &amp; Mini‑Batch K‑Means — CIELAB ± DCT complexity ± Coordinates (3D / 4D / 6D)</p>\n<div class=\"subtitle\">\nEach pixel is represented in <strong>CIELAB</strong> colour space augmented with a 4<sup>th</sup> dimension <strong>c</strong> = local high‑frequency ratio from DCT,<br>\nand optionally <strong>normalised pixel coordinates (x, y)</strong> as the 5<sup>th</sup> &amp; 6<sup>th</sup> dimensions,<br>\nhelping the clustering distinguish regions with similar colour but different textures or spatial positions.\n</div>\n<div class=\"summary-stats\">\n<div class=\"stat\"><div class=\"stat-value\">");
    push_decimal(html, images.len() as u64);
    html.append("</div><div class=\"stat-label\">Images</div></div>\n<div class=\"stat\"><div class=\"stat-value\">");
    push_decimal(html, first_clusters(images) as u64);
    html.append("</div><div class=\"stat-label\">Clusters per Image</div></div>\n<div class=\"stat\"><div class=\"stat-value\">");
    html.append(total.seconds.as_str());
    html.append("s</div><div class=\"stat-label\">Total Time</div></div>\n<div class=\"stat\"><div class=\"stat-value\">");
    push_decimal(html, total.average_millis as u64);
    html.append("ms</div><div class=\"stat-label\">Avg per Run</div></div>\n</div>\n</header>\n");
    write_all_images(html, images);
}

/// The page with its foot appended.
pub open spec fn cluster_footer_after(html: Seq<char>) -> Seq<char> {
    let html = html + "<footer>\n<p>Generated by dct‑extract — Rust + DCT complexity + linfa-clustering</p>\n</footer>\n</body>\n</html>\n"@;
    html
}

/// Appends the foot of the page.
pub fn write_footer(html: &mut String)
    ensures
        final(html)@ == cluster_footer_after(old(html)@),
{
    html.append("<footer>\n<p>Generated by dct‑extract — Rust + DCT complexity + linfa-clustering</p>\n</footer>\n</body>\n</html>\n");
}

/// What a section shows before the note on its dominant cluster.
spec fn section_head(html: Seq<char>, name: Seq<char>, desc: Seq<char>, r: ClustersText) -> Seq<char> {
    let html = html + "<section class=\"algo-section\">\n<h3>"@;
    let html = html + name;
    let html = html + " <span class=\"runtime-badge\">"@;
    let html = html + time_text(r.millis, r.seconds@);
    let html = html + "</span></h3>\n<div class=\"algo-desc\">"@;
    let html = html + desc;
    let html = html + "</div>\n<div class=\"dominant-section\">\n<span class=\"dominant-label\">Dominant</span>\n<div class=\"dominant-swatch\" style=\"background:"@;
    let html = html + r.dominant.hex@;
    let html = html + ";\"></div>\n<div class=\"dominant-info\">\n<span class=\"dominant-hex\">"@;
    let html = html + r.dominant.hex@;
    let html = html + "</span>\n<span class=\"dominant-proportion\">"@;
    let html = html + r.dominant.share@;
    let html = html + "% of pixels | L* "@;
    let html = html + r.dominant.lightness@;
    let html = html + " | c="@;
    let html = html + r.dominant.complexity@;
    html
}

/// What a section shows between that note and its clusters.
spec fn section_middle(html: Seq<char>, r: ClustersText) -> Seq<char> {
    let html = html + "</span>\n<span class=\"dominant-proportion\" style=\"color:var(--complexity);font-weight:600;\">score = softmax(p) × softmax(c) = "@;
    let html = html + r.dominant.score@;
    let html = html + "</span>\n</div>\n</div>\n<div class=\"palette-section\">\n<h4>All Clusters (dark → light)</h4>\n<div class=\"palette\">\n"@;
    html
}

proof fn clusters_grow_alike(
    g: Seq<char>,
    h: Seq<char>,
    clusters: Seq<ClusterText>,
    k: int,
    c: char,
)
    ensures
        occurrences(clusters_after(g, clusters, k), c) + occurrences(h, c) == occurrences(
            clusters_after(h, clusters, k),
            c,
        ) + occurrences(g, c),
    decreases k,
{
    occurrences_add_up(c);
    if k > 0 {
        clusters_grow_alike(g, h, clusters, k - 1, c);
    }
}

proof fn sections_grow_alike(
    g: Seq<char>,
    h: Seq<char>,
    name: Seq<char>,
    desc: Seq<char>,
    r: ClustersText,
    c: char,
)
    ensures
        occurrences(section_after(g, name, desc, r), c) + occurrences(h, c) == occurrences(
            section_after(h, name, desc, r),
            c,
        ) + occurrences(g, c),
{
    occurrences_add_up(c);
    let x = section_middle(note_after(section_head(g, name, desc, r), r.dominant), r);
    let y = section_middle(note_after(section_head(h, name, desc, r), r.dominant), r);
    clusters_grow_alike(x, y, r.clusters@, r.clusters@.len() as int, c);
}

/// What an image shows before its sections.
spec fn image_clusters_head(html: Seq<char>, r: ImageClusters) -> Seq<char> {
    let html = html + "<section class=\"image-section\">\n<h2>"@;
    let html = html + safe(r.img.filename@);
    let html = html + "</h2>\n<div class=\"image-meta\">"@;
    let html = html + decimal(r.img.width as int);
    let html = html + "×"@;
    let html = html + decimal(r.img.height as int);
    let html = html + " px ("@;
    let html = html + decimal(pixel_count(r.img.width, r.img.height) as int);
    let html = html + " pixels)</div>\n<img class=\"image-preview\" src=\""@;
    let html = html + r.img.preview@;
    let html = html + "\" alt=\""@;
    let html = html + safe(r.img.filename@);
    let html = html + "\" loading=\"lazy\" />\n"@;
    html
}

/// Whatever the name of its file, an image adds the same brackets and quotes to the
/// page.
pub proof fn file_names_add_no_marks(
    html: Seq<char>,
    one: ImageClusters,
    other: ImageClusters,
    c: char,
)
    requires
        one.img.width == other.img.width,
        one.img.height == other.img.height,
        one.img.preview == other.img.preview,
        one.kmeans_base == other.kmeans_base,
        one.minibatch_base == other.minibatch_base,
        one.kmeans == other.kmeans,
        one.minibatch == other.minibatch,
        one.kmeans_6d == other.kmeans_6d,
        one.minibatch_6d == other.minibatch_6d,
        c == '<' || c == '>' || c == '"' || c == '\'',
    ensures
        occurrences(image_clusters_after(html, one), c) == occurrences(
            image_clusters_after(html, other),
            c,
        ),
{
    occurrences_add_up(c);
    escaped_adds_no_marks(one.img.filename@, true, c);
    escaped_adds_no_marks(other.img.filename@, true, c);
    assert(safe(one.img.filename@) == escaped_text(one.img.filename@, true));
    assert(safe(other.img.filename@) == escaped_text(other.img.filename@, true));
    let x0 = image_clusters_head(html, one);
    let y0 = image_clusters_head(html, other);
    assert(occurrences(x0, c) == occurrences(y0, c));
    let x1 = section_after(x0, "K‑Means++ (Baseline)"@, "kmeans++ — 仅 CIELAB 3D，无复杂度维度"@, one.kmeans_base);
    let y1 = section_after(y0, "K‑Means++ (Baseline)"@, "kmeans++ — 仅 CIELAB 3D，无复杂度维度"@, one.kmeans_base);
    sections_grow_alike(x0, y0, "K‑Means++ (Baseline)"@, "kmeans++ — 仅 CIELAB 3D，无复杂度维度"@, one.kmeans_base, c);
    let x2 = section_after(x1, "Mini‑Batch K‑Means (Baseline)"@, "minibatch — 仅 CIELAB 3D，无复杂度维度"@, one.minibatch_base);
    let y2 = section_after(y1, "Mini‑Batch K‑Means (Baseline)"@, "minibatch — 仅 CIELAB 3D，无复杂度维度"@, one.minibatch_base);
    sections_grow_alike(x1, y1, "Mini‑Batch K‑Means (Baseline)"@, "minibatch — 仅 CIELAB 3D，无复杂度维度"@, one.minibatch_base, c);
    let x3 = section_after(x2, "K‑Means++ (with c)"@, "kmeans++ — CIELAB 4D，含 DCT 复杂度"@, one.kmeans);
    let y3 = section_after(y2, "K‑Means++ (with c)"@, "kmeans++ — CIELAB 4D，含 DCT 复杂度"@, one.kmeans);
    sections_grow_alike(x2, y2, "K‑Means++ (with c)"@, "kmeans++ — CIELAB 4D，含 DCT 复杂度"@, one.kmeans, c);
    let x4 = section_after(x3, "Mini‑Batch K‑Means (with c)"@, "minibatch — CIELAB 4D，含 DCT 复杂度"@, one.minibatch);
    let y4 = section_after(y3, "Mini‑Batch K‑Means (with c)"@, "minibatch — CIELAB 4D，含 DCT 复杂度"@, one.minibatch);
    sections_grow_alike(x3, y3, "Mini‑Batch K‑Means (with c)"@, "minibatch — CIELAB 4D，含 DCT 复杂度"@, one.minibatch, c);
    let x5 = section_after(x4, "K‑Means++ (c + xy)"@, "kmeans++ — CIELAB 6D，含 DCT 复杂度 + 像素坐标 (x,y)"@, one.kmeans_6d);
    let y5 = section_after(y4, "K‑Means++ (c + xy)"@, "kmeans++ — CIELAB 6D，含 DCT 复杂度 + 像素坐标 (x,y)"@, one.kmeans_6d);
    sections_grow_alike(x4, y4, "K‑Means++ (c + xy)"@, "kmeans++ — CIELAB 6D，含 DCT 复杂度 + 像素坐标 (x,y)"@, one.kmeans_6d, c);
    let x6 = section_after(x5, "Mini‑Batch K‑Means (c + xy)"@, "minibatch — CIELAB 6D，含 DCT 复杂度 + 像素坐标 (x,y)"@, one.minibatch_6d);
    let y6 = section_after(y5, "Mini‑Batch K‑Means (c + xy)"@, "minibatch — CIELAB 6D，含 DCT 复杂度 + 像素坐标 (x,y)"@, one.minibatch_6d);
    sections_grow_alike(x5, y5, "Mini‑Batch K‑Means (c + xy)"@, "minibatch — CIELAB 6D，含 DCT 复杂度 + 像素坐标 (x,y)"@, one.minibatch_6d, c);
    assert(image_clusters_after(html, one) == x6 + "</section>\n"@);
    assert(image_clusters_after(html, other) == y6 + "</section>\n"@);
}

/// The whole page.
pub fn cluster_page(images: &Vec<ImageClusters>, total: &RunTotals) -> (html: String)
    ensures
        html@ == cluster_footer_after(cluster_body_after(CLUSTER_PAGE_HEAD@, images@, *total)),
{
    let mut html = String::from_str(CLUSTER_PAGE_HEAD);
    write_body(&mut html, images, total);
    write_footer(&mut html);
    html
}

} // verus!
