//! The page of extracted palettes: every image with the palettes of all
//! algorithms in all colour spaces.

use vstd::prelude::*;
use vstd::string::*;
use crate::algorithms::{all_algorithms, all_spaces, Algorithm, ColorSpace};
use crate::text::{
    decimal, escaped, escaped_adds_no_marks, escaped_text, html_escape, occurrences,
    occurrences_add_up, push_decimal,
};

verus! {

/// A colour in words: its hexadecimal form, its lightness and its share in
/// percent, in digits.
#[derive(Clone, Debug)]
pub struct ColorText {
    pub hex: String,
    pub lightness: String,
    pub share: String,
}

/// A palette with its dominant colour, and how long it took.
#[derive(Clone, Debug)]
pub struct PaletteText {
    pub image: usize,
    pub algorithm: Algorithm,
    pub space: ColorSpace,
    pub palette: Vec<ColorText>,
    pub dominant: ColorText,
    /// Time in whole milliseconds.
    pub millis: u64,
    /// Time in seconds, in digits.
    pub seconds: String,
}

/// An image of the page.
#[derive(Clone, Debug)]
pub struct ImageText {
    pub filename: String,
    pub width: u32,
    pub height: u32,
    /// Data URI of a preview.
    pub preview: String,
}

/// Totals over all palettes.
#[derive(Clone, Debug)]
pub struct TotalText {
    /// Total time in seconds, in digits.
    pub seconds: String,
    /// Average time in whole milliseconds.
    pub average_millis: u64,
}

/// The head of the page.
pub const PAGE_HEAD: &'static str = r#"<!DOCTYPE html>
<html lang="en">
<head>
<meta charset="UTF-8">
<meta name="viewport" content="width=device-width, initial-scale=1.0">
<title>Color Extraction Results</title>
<style>
:root {
    --bg: #0f0f1a;
    --card: #1a1a2e;
    --card-hover: #1f1f3a;
    --text: #e0e0e0;
    --text-dim: #888;
    --accent: #6c63ff;
    --border: #2a2a4a;
}
* { margin: 0; padding: 0; box-sizing: border-box; }
body {
    background: var(--bg);
    color: var(--text);
    font-family: -apple-system, BlinkMacSystemFont, 'Segoe UI', Roboto, sans-serif;
    line-height: 1.5;
    padding: 20px;
}
header {
    text-align: center;
    padding: 40px 20px;
    border-bottom: 2px solid var(--border);
    margin-bottom: 30px;
}
header h1 { font-size: 2rem; color: var(--accent); margin-bottom: 8px; }
header p { color: var(--text-dim); }
.summary-stats {
    display: flex;
    justify-content: center;
    gap: 30px;
    margin-top: 15px;
    flex-wrap: wrap;
}
.stat { text-align: center; }
.stat-value { font-size: 2rem; font-weight: bold; color: var(--accent); }
.stat-label { font-size: 0.8rem; color: var(--text-dim); text-transform: uppercase; }
.image-section {
    background: var(--card);
    border-radius: 12px;
    padding: 25px;
    margin-bottom: 30px;
    border: 1px solid var(--border);
}
.image-section h2 {
    font-size: 1.4rem;
    margin-bottom: 5px;
    color: #fff;
}
.image-meta {
    color: var(--text-dim);
    font-size: 0.85rem;
    margin-bottom: 15px;
}
.image-preview {
    max-width: 100%;
    border-radius: 8px;
    margin-bottom: 20px;
    border: 1px solid var(--border);
}
.algorithm-section {
    margin-bottom: 25px;
}
.algorithm-section h3 {
    font-size: 1.15rem;
    color: var(--accent);
    padding-bottom: 8px;
    border-bottom: 1px solid var(--border);
    margin-bottom: 15px;
}
.colorspace-group {
    background: var(--card-hover);
    border-radius: 10px;
    padding: 18px;
    margin-bottom: 15px;
    border: 1px solid var(--border);
}
.colorspace-group h4 {
    font-size: 1rem;
    margin-bottom: 12px;
    display: flex;
    align-items: center;
    gap: 10px;
}
.runtime-badge {
    background: #2a2a4a;
    color: #aaa;
    padding: 3px 10px;
    border-radius: 12px;
    font-size: 0.75rem;
    font-weight: normal;
    font-family: 'SF Mono', 'Fira Code', monospace;
}
.dominant-section {
    display: flex;
    align-items: center;
    gap: 20px;
    margin-bottom: 18px;
    padding: 12px;
    background: rgba(108, 99, 255, 0.08);
    border-radius: 8px;
    border-left: 3px solid var(--accent);
}
.dominant-label {
    font-size: 0.8rem;
    color: var(--accent);
    text-transform: uppercase;
    letter-spacing: 0.5px;
    font-weight: 600;
    white-space: nowrap;
}
.dominant-swatch {
    width: 80px;
    height: 80px;
    border-radius: 10px;
    border: 2px solid var(--border);
    box-shadow: 0 4px 15px rgba(0,0,0,0.3);
}
.dominant-info {
    display: flex;
    flex-direction: column;
    gap: 3px;
}
.dominant-hex {
    font-family: 'SF Mono', 'Fira Code', monospace;
    font-size: 0.95rem;
    font-weight: 600;
}
.dominant-proportion {
    font-size: 0.75rem;
    color: var(--text-dim);
}
.palette-section { margin-top: 5px; }
.palette-section h5 {
    font-size: 0.8rem;
    color: var(--text-dim);
    margin-bottom: 10px;
    text-transform: uppercase;
    letter-spacing: 0.5px;
}
.palette {
    display: flex;
    gap: 8px;
    flex-wrap: wrap;
}
.swatch-card {
    display: flex;
    flex-direction: column;
    align-items: center;
    gap: 4px;
    width: 90px;
}
.color-block {
    width: 90px;
    height: 55px;
    border-radius: 8px;
    border: 1px solid rgba(255,255,255,0.1);
    box-shadow: 0 2px 10px rgba(0,0,0,0.2);
    transition: transform 0.15s;
}
.color-block:hover { transform: scale(1.08); }
.swatch-hex {
    font-family: 'SF Mono', 'Fira Code', monospace;
    font-size: 0.7rem;
    color: #ccc;
}
.swatch-lab {
    font-size: 0.65rem;
    color: var(--text-dim);
}
.swatch-pct {
    font-size: 0.6rem;
    color: var(--text-dim);
}
footer {
    text-align: center;
    padding: 30px;
    color: var(--text-dim);
    font-size: 0.8rem;
    border-top: 1px solid var(--border);
    margin-top: 30px;
}
</style>
</head>
"#;

/// A time in words: in seconds from one second on, else in milliseconds.
pub open spec fn time_text(millis: u64, seconds: Seq<char>) -> Seq<char> {
    if millis >= 1000 {
        seconds + "s"@
    } else {
        decimal(millis as int) + "ms"@
    }
}

/// A time in words.
pub fn time_words(millis: u64, seconds: &str) -> (s: String)
    ensures
        s@ == time_text(millis, seconds@),
{
    let mut s = String::new();
    if millis >= 1000 {
        s.append(seconds);
        s.append("s");
        assert(s@ =~= time_text(millis, seconds@));
    } else {
        push_decimal(&mut s, millis);
        s.append("ms");
        assert(s@ =~= time_text(millis, seconds@));
    }
    s
}

/// A text with all special characters escaped.
pub open spec fn safe(s: Seq<char>) -> Seq<char> {
    escaped(s, true, s.len() as int)
}

/// Number of pixels of an image.
pub open spec fn pixel_count(w: u32, h: u32) -> int {
    w * h
}

/// Number of pixels of an image.
pub fn count_pixels(w: u32, h: u32) -> (n: u64)
    ensures
        n == pixel_count(w, h),
{
    proof {
        assert(0 <= w * h <= 0xffff_ffff * 0xffff_ffff) by (nonlinear_arith)
            requires
                0 <= w <= 0xffff_ffff,
                0 <= h <= 0xffff_ffff,
        ;
    }
    w as u64 * h as u64
}

/// The page with the card of a colour appended.
pub open spec fn swatch_after(html: Seq<char>, c: ColorText) -> Seq<char> {
    let html = html + "<div class=\"swatch-card\">\n<div class=\"color-block\" style=\"background:"@;
    let html = html + c.hex@;
    let html = html + ";\"></div>\n<span class=\"swatch-hex\">"@;
    let html = html + c.hex@;
    let html = html + "</span>\n<span class=\"swatch-lab\">L* "@;
    let html = html + c.lightness@;
    let html = html + "</span>\n<span class=\"swatch-pct\">"@;
    let html = html + c.share@;
    let html = html + "%</span>\n</div>\n"@;
    html
}

/// Appends the card of a colour.
pub fn write_swatch(html: &mut String, c: &ColorText)
    ensures
        final(html)@ == swatch_after(old(html)@, *c),
{
    html.append("<div class=\"swatch-card\">\n<div class=\"color-block\" style=\"background:");
    html.append(c.hex.as_str());
    html.append(";\"></div>\n<span class=\"swatch-hex\">");
    html.append(c.hex.as_str());
    html.append("</span>\n<span class=\"swatch-lab\">L* ");
    html.append(c.lightness.as_str());
    html.append("</span>\n<span class=\"swatch-pct\">");
    html.append(c.share.as_str());
    html.append("%</span>\n</div>\n");
}

/// Appends the cards of colours, for the first `k`.
pub open spec fn swatches_after(html: Seq<char>, colors: Seq<ColorText>, k: int) -> Seq<char>
    decreases k,
{
    if k <= 0 {
        html
    } else {
        swatch_after(swatches_after(html, colors, k - 1), colors[k - 1])
    }
}

/// Appends the cards of colours.
pub fn write_swatches(html: &mut String, colors: &Vec<ColorText>)
    ensures
        final(html)@ == swatches_after(old(html)@, colors@, colors@.len() as int),
{
    let ghost start = html@;
    let mut i: usize = 0;
    while i < colors.len()
        invariant
            i <= colors@.len(),
            html@ == swatches_after(start, colors@, i as int),
        decreases colors@.len() - i,
    {
        write_swatch(html, &colors[i]);
        i += 1;
    }
}

/// The name of a colour space.
pub open spec fn space_name(c: ColorSpace) -> Seq<char> {
    match c {
        ColorSpace::RGB => "RGB"@,
        ColorSpace::CIELAB => "CIELAB"@,
        ColorSpace::Oklab => "Oklab"@,
        ColorSpace::HSL => "HSL"@,
        ColorSpace::CAM16 => "CAM16"@,
    }
}

/// The name of an algorithm.
pub open spec fn algorithm_name(a: Algorithm) -> Seq<char> {
    match a {
        Algorithm::KMeansPlusPlus => "KMeans++"@,
        Algorithm::MiniBatchKMeans => "Mini-Batch KMeans"@,
        Algorithm::MedianCut => "Median Cut"@,
        Algorithm::Octree => "Octree Quantization"@,
    }
}

/// The page with a palette appended.
pub open spec fn group_after(html: Seq<char>, r: PaletteText) -> Seq<char> {
    let html = html + "<div class=\"colorspace-group\">\n<h4>"@;
    let html = html + space_name(r.space);
    let html = html + " <span class=\"runtime-badge\">"@;
    let html = html + time_text(r.millis, r.seconds@);
    let html = html + "</span></h4>\n<div class=\"dominant-section\">\n<span class=\"dominant-label\">Dominant</span>\n<div class=\"dominant-swatch\" style=\"background:"@;
    let html = html + r.dominant.hex@;
    let html = html + ";\"></div>\n<div class=\"dominant-info\">\n<span class=\"dominant-hex\">"@;
    let html = html + r.dominant.hex@;
    let html = html + "</span>\n<span class=\"dominant-proportion\">"@;
    let html = html + r.dominant.share@;
    let html = html + "% of pixels | L* "@;
    let html = html + r.dominant.lightness@;
    let html = html + "</span>\n</div>\n</div>\n<div class=\"palette-section\">\n<h5>Palette (dark → light)</h5>\n<div class=\"palette\">\n"@;
    let html = swatches_after(html, r.palette@, r.palette@.len() as int);
    let html = html + "</div>\n</div>\n</div>\n"@;
    html
}

/// Appends a palette.
pub fn write_colorspace_group(html: &mut String, r: &PaletteText)
    ensures
        final(html)@ == group_after(old(html)@, *r),
{
    html.append("<div class=\"colorspace-group\">\n<h4>");
    html.append(r.space.name());
    html.append(" <span class=\"runtime-badge\">");
    let time = time_words(r.millis, r.seconds.as_str());
    html.append(time.as_str());
    html.append("</span></h4>\n<div class=\"dominant-section\">\n<span class=\"dominant-label\">Dominant</span>\n<div class=\"dominant-swatch\" style=\"background:");
    html.append(r.dominant.hex.as_str());
    html.append(";\"></div>\n<div class=\"dominant-info\">\n<span class=\"dominant-hex\">");
    html.append(r.dominant.hex.as_str());
    html.append("</span>\n<span class=\"dominant-proportion\">");
    html.append(r.dominant.share.as_str());
    html.append("% of pixels | L* ");
    html.append(r.dominant.lightness.as_str());
    html.append("</span>\n</div>\n</div>\n<div class=\"palette-section\">\n<h5>Palette (dark → light)</h5>\n<div class=\"palette\">\n");
    write_swatches(html, &r.palette);
    html.append("</div>\n</div>\n</div>\n");
}

/// The first palette from `k` on for an image, an algorithm and a colour space.
pub open spec fn find_from(
    results: Seq<PaletteText>,
    image: int,
    a: Algorithm,
    c: ColorSpace,
    k: int,
) -> int
    decreases results.len() - k,
{
    if k >= results.len() {
        results.len() as int
    } else if results[k].image == image && results[k].algorithm == a && results[k].space == c {
        k
    } else {
        find_from(results, image, a, c, k + 1)
    }
}

fn find_result(results: &Vec<PaletteText>, image: usize, a: Algorithm, c: ColorSpace) -> (at: usize)
    ensures
        at == find_from(results@, image as int, a, c, 0),
        at <= results@.len(),
{
    let mut k: usize = 0;
    while k < results.len() && !(results[k].image == image && results[k].algorithm == a
        && results[k].space == c)
        invariant
            k <= results@.len(),
            find_from(results@, image as int, a, c, 0) == find_from(
                results@,
                image as int,
                a,
                c,
                k as int,
            ),
        decreases results@.len() - k,
    {
        k += 1;
    }
    k
}

/// The page with the palettes of an algorithm in the first `k` colour spaces, as
/// far as there are any.
pub open spec fn spaces_after(
    html: Seq<char>,
    results: Seq<PaletteText>,
    image: int,
    a: Algorithm,
    k: int,
) -> Seq<char>
    decreases k,
{
    if k <= 0 {
        html
    } else {
        let before = spaces_after(html, results, image, a, k - 1);
        let at = find_from(results, image, a, all_spaces()[k - 1], 0);
        if at < results.len() {
            group_after(before, results[at])
        } else {
            before
        }
    }
}

fn write_spaces(html: &mut String, results: &Vec<PaletteText>, image: usize, a: Algorithm)
    ensures
        final(html)@ == spaces_after(old(html)@, results@, image as int, a, 5),
{
    let ghost start = html@;
    let spaces = ColorSpace::all();
    let mut k: usize = 0;
    while k < 5
        invariant
            k <= 5,
            spaces@ == all_spaces(),
            html@ == spaces_after(start, results@, image as int, a, k as int),
        decreases 5 - k,
    {
        let at = find_result(results, image, a, spaces[k]);
        if at < results.len() {
            write_colorspace_group(html, &results[at]);
        }
        k += 1;
    }
}

/// The page with the sections of the first `k` algorithms for an image.
pub open spec fn algorithms_after(
    html: Seq<char>,
    results: Seq<PaletteText>,
    image: int,
    k: int,
) -> Seq<char>
    decreases k,
{
    if k <= 0 {
        html
    } else {
        let a = all_algorithms()[k - 1];
        let html = algorithms_after(html, results, image, k - 1);
        let html = html + "<section class=\"algorithm-section\">\n<h3>"@;
        let html = html + algorithm_name(a);
        let html = html + "</h3>\n"@;
        let html = spaces_after(html, results, image, a, 5);
        html + "</section>\n"@
    }
}

fn write_algorithms(html: &mut String, results: &Vec<PaletteText>, image: usize)
    ensures
        final(html)@ == algorithms_after(old(html)@, results@, image as int, 4),
{
    let ghost start = html@;
    let algorithms = Algorithm::all();
    let mut k: usize = 0;
    while k < 4
        invariant
            k <= 4,
            algorithms@ == all_algorithms(),
            html@ == algorithms_after(start, results@, image as int, k as int),
        decreases 4 - k,
    {
        html.append("<section class=\"algorithm-section\">\n<h3>");
        html.append(algorithms[k].name());
        html.append("</h3>\n");
        write_spaces(html, results, image, algorithms[k]);
        html.append("</section>\n");
        k += 1;
    }
}

/// The page with the section of an image appended.
pub open spec fn image_after(html: Seq<char>, img: ImageText, image: usize, results: Seq<PaletteText>) -> Seq<char> {
    let html = html + "<section class=\"image-section\">\n<h2>"@;
    let html = html + safe(img.filename@);
    let html = html + "</h2>\n<div class=\"image-meta\">Dimensions: "@;
    let html = html + decimal(img.width as int);
    let html = html + "×"@;
    let html = html + decimal(img.height as int);
    let html = html + " ("@;
    let html = html + decimal(pixel_count(img.width, img.height) as int);
    let html = html + " pixels) | Resized to fit 1024×1024</div>\n<img class=\"image-preview\" src=\""@;
    let html = html + img.preview@;
    let html = html + "\" alt=\""@;
    let html = html + safe(img.filename@);
    let html = html + "\" loading=\"lazy\" />\n"@;
    let html = algorithms_after(html, results, image as int, 4);
    let html = html + "</section>\n"@;
    html
}

/// Appends the section of an image.
pub fn write_image(html: &mut String, img: &ImageText, image: usize, results: &Vec<PaletteText>)
    ensures
        final(html)@ == image_after(old(html)@, *img, image, results@),
{
    html.append("<section class=\"image-section\">\n<h2>");
    let name = html_escape(img.filename.as_str());
    html.append(name.as_str());
    html.append("</h2>\n<div class=\"image-meta\">Dimensions: ");
    push_decimal(html, img.width as u64);
    html.append("×");
    push_decimal(html, img.height as u64);
    html.append(" (");
    push_decimal(html, count_pixels(img.width, img.height) as u64);
    html.append(" pixels) | Resized to fit 1024×1024</div>\n<img class=\"image-preview\" src=\"");
    html.append(img.preview.as_str());
    html.append("\" alt=\"");
    html.append(name.as_str());
    html.append("\" loading=\"lazy\" />\n");
    write_algorithms(html, results, image);
    html.append("</section>\n");
}

/// The page with the sections of the first `k` images.
pub open spec fn images_after(
    html: Seq<char>,
    images: Seq<ImageText>,
    results: Seq<PaletteText>,
    k: int,
) -> Seq<char>
    decreases k,
{
    if k <= 0 {
        html
    } else {
        image_after(
            images_after(html, images, results, k - 1),
            images[k - 1],
            (k - 1) as usize,
            results,
        )
    }
}

fn write_images(html: &mut String, images: &Vec<ImageText>, results: &Vec<PaletteText>)
    ensures
        final(html)@ == images_after(old(html)@, images@, results@, images@.len() as int),
{
    let ghost start = html@;
    let mut i: usize = 0;
    while i < images.len()
        invariant
            i <= images@.len(),
            html@ == images_after(start, images@, results@, i as int),
        decreases images@.len() - i,
    {
        write_image(html, &images[i], i, results);
        i += 1;
    }
}

/// The page with its body appended.
pub open spec fn body_after(html: Seq<char>, images: Seq<ImageText>, results: Seq<PaletteText>, total: TotalText) -> Seq<char> {
    let html = html + "<body>\n<header>\n<h1>🎨 Color Extraction Results</h1>\n<p>"@;
    let html = html + decimal(images.len() as int);
    let html = html + " images × 4 algorithms × 5 color spaces = "@;
    let html = html + decimal(results.len() as int);
    let html = html + " combinations</p>\n<div class=\"summary-stats\">\n<div class=\"stat\"><div class=\"stat-value\">"@;
    let html = html + decimal(images.len() as int);
    let html = html + "</div><div class=\"stat-label\">Images</div></div>\n<div class=\"stat\"><div class=\"stat-value\">"@;
    let html = html + decimal(results.len() as int);
    let html = html + "</div><div class=\"stat-label\">Combinations</div></div>\n<div class=\"stat\"><div class=\"stat-value\">"@;
    let html = html + total.seconds@;
    let html = html + "s</div><div class=\"stat-label\">Total Time</div></div>\n<div class=\"stat\"><div class=\"stat-value\">"@;
    let html = html + decimal(total.average_millis as int);
    let html = html + "ms</div><div class=\"stat-label\">Avg per Combo</div></div>\n</div>\n</header>\n"@;
    let html = images_after(html, images, results, images.len() as int);
    html
}

/// Appends the body of the page.
pub fn write_html_body(html: &mut String, images: &Vec<ImageText>, results: &Vec<PaletteText>, total: &TotalText)
    ensures
        final(html)@ == body_after(old(html)@, images@, results@, *total),
{
    html.append("<body>\n<header>\n<h1>🎨 Color Extraction Results</h1>\n<p>");
    push_decimal(html, images.len() as u64);
    html.append(" images × 4 algorithms × 5 color spaces = ");
    push_decimal(html, results.len() as u64);
    html.append(" combinations</p>\n<div class=\"summary-stats\">\n<div class=\"stat\"><div class=\"stat-value\">");
    push_decimal(html, images.len() as u64);
    html.append("</div><div class=\"stat-label\">Images</div></div>\n<div class=\"stat\"><div class=\"stat-value\">");
    push_decimal(html, results.len() as u64);
    html.append("</div><div class=\"stat-label\">Combinations</div></div>\n<div class=\"stat\"><div class=\"stat-value\">");
    html.append(total.seconds.as_str());
    html.append("s</div><div class=\"stat-label\">Total Time</div></div>\n<div class=\"stat\"><div class=\"stat-value\">");
    push_decimal(html, total.average_millis as u64);
    html.append("ms</div><div class=\"stat-label\">Avg per Combo</div></div>\n</div>\n</header>\n");
    write_images(html, images, results);
}

/// The page with its foot appended.
pub open spec fn footer_after(html: Seq<char>) -> Seq<char> {
    let html = html + "<footer>\n<p>Generated by color-extract — Rust + palette + linfa-clustering + rayon</p>\n</footer>\n</body>\n</html>\n"@;
    html
}

/// Appends the foot of the page.
pub fn write_html_footer(html: &mut String)
    ensures
        final(html)@ == footer_after(old(html)@),
{
    html.append("<footer>\n<p>Generated by color-extract — Rust + palette + linfa-clustering + rayon</p>\n</footer>\n</body>\n</html>\n");
}

/// A result is found by its image, algorithm and colour space, the first one that
/// fits; nothing is found only where none fits.
pub proof fn results_are_found(
    results: Seq<PaletteText>,
    image: int,
    a: Algorithm,
    c: ColorSpace,
    k: int,
    i: int,
)
    requires
        0 <= k <= i < results.len(),
        results[i].image == image,
        results[i].algorithm == a,
        results[i].space == c,
    ensures
        ({
            let at = find_from(results, image, a, c, k);
            &&& k <= at <= i
            &&& results[at].image == image && results[at].algorithm == a && results[at].space == c
        }),
    decreases results.len() - k,
{
    if k < i {
        results_are_found(results, image, a, c, k + 1, i);
    }
}

proof fn swatches_grow_alike(
    g: Seq<char>,
    h: Seq<char>,
    colors: Seq<ColorText>,
    k: int,
    c: char,
)
    ensures
        occurrences(swatches_after(g, colors, k), c) + occurrences(h, c) == occurrences(
            swatches_after(h, colors, k),
            c,
        ) + occurrences(g, c),
    decreases k,
{
    occurrences_add_up(c);
    if k > 0 {
        swatches_grow_alike(g, h, colors, k - 1, c);
    }
}

proof fn groups_grow_alike(g: Seq<char>, h: Seq<char>, r: PaletteText, c: char)
    ensures
        occurrences(group_after(g, r), c) + occurrences(h, c) == occurrences(group_after(h, r), c)
            + occurrences(g, c),
{
    occurrences_add_up(c);
    let x = "</span>\n</div>\n</div>\n<div class=\"palette-section\">\n<h5>Palette (dark → light)</h5>\n<div class=\"palette\">\n"@;
    assert forall|a: Seq<char>, b: Seq<char>| #![trigger swatches_after(a + x, r.palette@, r.palette@.len() as int), swatches_after(b + x, r.palette@, r.palette@.len() as int)]
        occurrences(swatches_after(a + x, r.palette@, r.palette@.len() as int), c) + occurrences(
            b + x,
            c,
        ) == occurrences(swatches_after(b + x, r.palette@, r.palette@.len() as int), c)
            + occurrences(a + x, c) by {
        swatches_grow_alike(a + x, b + x, r.palette@, r.palette@.len() as int, c);
    }
}

proof fn spaces_grow_alike(
    g: Seq<char>,
    h: Seq<char>,
    results: Seq<PaletteText>,
    image: int,
    a: Algorithm,
    k: int,
    c: char,
)
    ensures
        occurrences(spaces_after(g, results, image, a, k), c) + occurrences(h, c) == occurrences(
            spaces_after(h, results, image, a, k),
            c,
        ) + occurrences(g, c),
    decreases k,
{
    if k > 0 {
        spaces_grow_alike(g, h, results, image, a, k - 1, c);
        let at = find_from(results, image, a, all_spaces()[k - 1], 0);
        if at < results.len() {
            groups_grow_alike(
                spaces_after(g, results, image, a, k - 1),
                spaces_after(h, results, image, a, k - 1),
                results[at],
                c,
            );
        }
    }
}

proof fn algorithms_grow_alike(
    g: Seq<char>,
    h: Seq<char>,
    results: Seq<PaletteText>,
    image: int,
    k: int,
    c: char,
)
    ensures
        occurrences(algorithms_after(g, results, image, k), c) + occurrences(h, c) == occurrences(
            algorithms_after(h, results, image, k),
            c,
        ) + occurrences(g, c),
    decreases k,
{
    occurrences_add_up(c);
    if k > 0 {
        algorithms_grow_alike(g, h, results, image, k - 1, c);
        let a = all_algorithms()[k - 1];
        let head = "<section class=\"algorithm-section\">\n<h3>"@;
        let tail = "</h3>\n"@;
        let x = algorithms_after(g, results, image, k - 1) + head + algorithm_name(a) + tail;
        let y = algorithms_after(h, results, image, k - 1) + head + algorithm_name(a) + tail;
        spaces_grow_alike(x, y, results, image, a, 5, c);
    }
}

/// Whatever the name of its file, an image adds the same brackets and quotes to the
/// page: a name can neither open a tag nor end a text in quotes.
pub proof fn file_names_add_no_marks(
    html: Seq<char>,
    one: ImageText,
    other: ImageText,
    image: usize,
    results: Seq<PaletteText>,
    c: char,
)
    requires
        one.width == other.width,
        one.height == other.height,
        one.preview == other.preview,
        c == '<' || c == '>' || c == '"' || c == '\'',
    ensures
        occurrences(image_after(html, one, image, results), c) == occurrences(
            image_after(html, other, image, results),
            c,
        ),
{
    occurrences_add_up(c);
    escaped_adds_no_marks(one.filename@, true, c);
    escaped_adds_no_marks(other.filename@, true, c);
    assert(safe(one.filename@) == escaped_text(one.filename@, true));
    assert(safe(other.filename@) == escaped_text(other.filename@, true));
    let x = image_head(html, one);
    let y = image_head(html, other);
    assert(occurrences(x, c) == occurrences(y, c));
    algorithms_grow_alike(x, y, results, image as int, 4, c);
    assert(image_after(html, one, image, results) == algorithms_after(x, results, image as int, 4)
        + "</section>\n"@);
    assert(image_after(html, other, image, results) == algorithms_after(
        y,
        results,
        image as int,
        4,
    ) + "</section>\n"@);
}

/// What an image adds to the page before its palettes.
spec fn image_head(html: Seq<char>, img: ImageText) -> Seq<char> {
    let html = html + "<section class=\"image-section\">\n<h2>"@;
    let html = html + safe(img.filename@);
    let html = html + "</h2>\n<div class=\"image-meta\">Dimensions: "@;
    let html = html + decimal(img.width as int);
    let html = html + "×"@;
    let html = html + decimal(img.height as int);
    let html = html + " ("@;
    let html = html + decimal(pixel_count(img.width, img.height) as int);
    let html = html + " pixels) | Resized to fit 1024×1024</div>\n<img class=\"image-preview\" src=\""@;
    let html = html + img.preview@;
    let html = html + "\" alt=\""@;
    let html = html + safe(img.filename@);
    html + "\" loading=\"lazy\" />\n"@
}

/// Times of a second and more are told in seconds, shorter ones in milliseconds.
pub proof fn long_times_are_in_seconds(millis: u64, seconds: Seq<char>)
    ensures
        millis >= 1000 ==> time_text(millis, seconds) == seconds + seq!['s'],
        millis < 1000 ==> time_text(millis, seconds) == decimal(millis as int) + seq!['m', 's'],
{
    reveal_strlit("s");
    reveal_strlit("ms");
    assert("s"@ =~= seq!['s']);
    assert("ms"@ =~= seq!['m', 's']);
}

/// The whole page.
pub fn palette_page(images: &Vec<ImageText>, results: &Vec<PaletteText>, total: &TotalText) -> (html:
    String)
    ensures
        html@ == footer_after(body_after(PAGE_HEAD@, images@, results@, *total)),
{
    let mut html = String::from_str(PAGE_HEAD);
    write_html_body(&mut html, images, results, total);
    write_html_footer(&mut html);
    html
}

/// Average time in whole milliseconds, of a total in nanoseconds.
pub fn average_millis(total_nanos: u64, count: usize) -> (ms: u64)
    ensures
        ms as int == (total_nanos as int / if count == 0 {
            1
        } else {
            count as int
        }) / 1_000_000,
{
    let n: u64 = if count == 0 {
        1
    } else {
        count as u64
    };
    total_nanos / n / 1_000_000
}

} // verus!
