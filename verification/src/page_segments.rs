//! The pages of a segmentation: one for each image, and an overview.

use vstd::prelude::*;
use vstd::string::*;
use crate::encoding::{
    flat, flat_rgba, flatten, flatten_rgba, img_to_png_uri, png_bytes, png_uri, text_of,
    EncodeError, Layers,
};
use crate::overlays::{
    cluster_color, gen_boundary_overlay, gen_colored_overlay, label_color, on_boundary, GREY,
};
use crate::region::{frame, Region};
use crate::segment::SegmentResult;
use crate::text::{
    decimal, escape_html, escaped, escaped_adds_no_marks, escaped_text, hex_text, occurrences,
    occurrences_add_up, push_decimal, rgb_to_hex_upper,
};

verus! {

/// A text with angle brackets and ampersands escaped.
pub open spec fn tag_safe(s: Seq<char>) -> Seq<char> {
    escaped(s, false, s.len() as int)
}

/// Total area of the first `k` regions.
pub open spec fn total_area(regions: Seq<Region>, k: int) -> int
    decreases k,
{
    if k <= 0 {
        0
    } else {
        total_area(regions, k - 1) + regions[k - 1].area
    }
}

proof fn total_area_grows(regions: Seq<Region>, k: int, m: int)
    requires
        k <= m,
    ensures
        total_area(regions, k) <= total_area(regions, m),
    decreases m - k,
{
    if k < m {
        total_area_grows(regions, k, m - 1);
    }
}

fn sum_areas(regions: &Vec<Region>) -> (n: usize)
    requires
        total_area(regions@, regions@.len() as int) <= usize::MAX,
    ensures
        n == total_area(regions@, regions@.len() as int),
{
    let mut n: usize = 0;
    let mut i: usize = 0;
    while i < regions.len()
        invariant
            i <= regions@.len(),
            n == total_area(regions@, i as int),
            total_area(regions@, regions@.len() as int) <= usize::MAX,
        decreases regions@.len() - i,
    {
        proof {
            total_area_grows(regions@, i + 1, regions@.len() as int);
        }
        n = n + regions[i].area;
        i += 1;
    }
    n
}

/// `t` is a region's share of the total area in percent, in digits.
pub open spec fn share_text<F: Fn(usize, usize) -> String>(
    percent: F,
    area: usize,
    total: usize,
    t: String,
) -> bool {
    if total > 0 {
        call_ensures(percent, (area, total), t)
    } else {
        t@ == "0.0"@
    }
}

/// `shares` holds every region's share in percent, in digits.
pub open spec fn share_texts<F: Fn(usize, usize) -> String>(
    percent: F,
    regions: Seq<Region>,
    shares: Seq<String>,
) -> bool {
    &&& shares.len() == regions.len()
    &&& forall|i: int|
        #![trigger shares[i]]
        0 <= i < shares.len() ==> share_text(
            percent,
            regions[i].area,
            total_area(regions, regions.len() as int) as usize,
            shares[i],
        )
}

/// Every region's share in percent, in digits.
pub fn area_shares<F: Fn(usize, usize) -> String>(regions: &Vec<Region>, percent: &F) -> (shares: Vec<
    String,
>)
    requires
        total_area(regions@, regions@.len() as int) <= usize::MAX,
        forall|a: usize, b: usize| b > 0 ==> #[trigger] call_requires(*percent, (a, b)),
    ensures
        share_texts(*percent, regions@, shares@),
{
    let total = sum_areas(regions);
    let mut shares: Vec<String> = Vec::new();
    let mut i: usize = 0;
    while i < regions.len()
        invariant
            i <= regions@.len(),
            total == total_area(regions@, regions@.len() as int),
            forall|a: usize, b: usize| b > 0 ==> #[trigger] call_requires(*percent, (a, b)),
            shares@.len() == i,
            forall|k: int|
                #![trigger shares@[k]]
                0 <= k < i ==> share_text(*percent, regions@[k].area, total, shares@[k]),
        decreases regions@.len() - i,
    {
        let area = regions[i].area;
        let t = if total > 0 {
            assert(call_requires(*percent, (area, total)));
            percent(area, total)
        } else {
            String::from_str("0.0")
        };
        shares.push(t);
        i += 1;
    }
    shares
}

/// The colour of a region in upper-case hexadecimal.
pub open spec fn region_hex(region: Region, palette: Seq<[u8; 3]>) -> Seq<char> {
    hex_text(cluster_color(palette, region.cluster_id as int, GREY), true)
}

fn hex_of(region: &Region, palette: &Vec<[u8; 3]>) -> (s: String)
    ensures
        s@ == region_hex(*region, palette@),
{
    let rgb = if region.cluster_id < palette.len() {
        palette[region.cluster_id]
    } else {
        GREY
    };
    rgb_to_hex_upper(rgb)
}

/// The text with a region appended as a JSON object.
pub open spec fn json_item_after(html: Seq<char>, region: Region, palette: Seq<[u8; 3]>, share: String) -> Seq<char> {
    let html = html + "{\"color\":\""@;
    let html = html + region_hex(region, palette);
    let html = html + "\",\"area_pct\":"@;
    let html = html + share@;
    let html = html + ",\"area\":"@;
    let html = html + decimal(region.area as int);
    let html = html + "}"@;
    html
}

/// Appends a region as a JSON object.
pub fn write_json_item(html: &mut String, region: &Region, palette: &Vec<[u8; 3]>, share: &String)
    ensures
        final(html)@ == json_item_after(old(html)@, *region, palette@, *share),
{
    html.append("{\"color\":\"");
    let hex = hex_of(region, palette);
    html.append(hex.as_str());
    html.append("\",\"area_pct\":");
    html.append(share.as_str());
    html.append(",\"area\":");
    push_decimal(html, region.area as u64);
    html.append("}");
}

/// The text with the regions as JSON objects, for the first `k` regions.
pub open spec fn json_items_after(
    html: Seq<char>,
    regions: Seq<Region>,
    palette: Seq<[u8; 3]>,
    shares: Seq<String>,
    k: int,
) -> Seq<char>
    decreases k,
{
    if k <= 0 {
        html
    } else {
        let before = json_items_after(html, regions, palette, shares, k - 1);
        let before = if k > 1 {
            before + ","@
        } else {
            before
        };
        json_item_after(before, regions[k - 1], palette, shares[k - 1])
    }
}

fn write_json_items(
    html: &mut String,
    regions: &Vec<Region>,
    palette: &Vec<[u8; 3]>,
    shares: &Vec<String>,
)
    requires
        shares@.len() == regions@.len(),
    ensures
        final(html)@ == json_items_after(
            old(html)@,
            regions@,
            palette@,
            shares@,
            regions@.len() as int,
        ),
{
    let ghost start = html@;
    let mut i: usize = 0;
    while i < regions.len()
        invariant
            i <= regions@.len(),
            shares@.len() == regions@.len(),
            html@ == json_items_after(start, regions@, palette@, shares@, i as int),
        decreases regions@.len() - i,
    {
        if i > 0 {
            html.append(",");
        }
        write_json_item(html, &regions[i], palette, &shares[i]);
        i += 1;
    }
}

/// The regions as a JSON array.
pub open spec fn palette_json(
    regions: Seq<Region>,
    palette: Seq<[u8; 3]>,
    shares: Seq<String>,
) -> Seq<char> {
    json_items_after("["@, regions, palette, shares, regions.len() as int) + "]"@
}

/// The regions as a JSON array, each with its colour, its share and its area.
pub fn build_palette_json(regions: &Vec<Region>, palette: &Vec<[u8; 3]>, shares: &Vec<String>) -> (json:
    String)
    requires
        shares@.len() == regions@.len(),
    ensures
        json@ == palette_json(regions@, palette@, shares@),
{
    let mut json = String::from_str("[");
    write_json_items(&mut json, regions, palette, shares);
    json.append("]");
    json
}

/// The page with the panel of a region appended.
pub open spec fn panel_item_after(html: Seq<char>, region: Region, palette: Seq<[u8; 3]>, share: String) -> Seq<char> {
    let html = html + "<div class=\"palette-item\">\n    <div class=\"swatch\" style=\"background:"@;
    let html = html + region_hex(region, palette);
    let html = html + "\"></div>\n    <div class=\"swatch-info\">\n        <div class=\"swatch-hex\">"@;
    let html = html + region_hex(region, palette);
    let html = html + "</div>\n        <div class=\"swatch-pct\">"@;
    let html = html + share@;
    let html = html + "% — "@;
    let html = html + decimal(region.area as int);
    let html = html + " px</div>\n    </div>\n</div>\n"@;
    html
}

/// Appends the panel of a region.
pub fn write_panel_item(html: &mut String, region: &Region, palette: &Vec<[u8; 3]>, share: &String)
    ensures
        final(html)@ == panel_item_after(old(html)@, *region, palette@, *share),
{
    html.append("<div class=\"palette-item\">\n    <div class=\"swatch\" style=\"background:");
    let hex = hex_of(region, palette);
    html.append(hex.as_str());
    html.append("\"></div>\n    <div class=\"swatch-info\">\n        <div class=\"swatch-hex\">");
    html.append(hex.as_str());
    html.append("</div>\n        <div class=\"swatch-pct\">");
    html.append(share.as_str());
    html.append("% — ");
    push_decimal(html, region.area as u64);
    html.append(" px</div>\n    </div>\n</div>\n");
}

/// The page with the panels of the regions, for the first `k` regions.
pub open spec fn panel_items_after(
    html: Seq<char>,
    regions: Seq<Region>,
    palette: Seq<[u8; 3]>,
    shares: Seq<String>,
    k: int,
) -> Seq<char>
    decreases k,
{
    if k <= 0 {
        html
    } else {
        let before = panel_items_after(html, regions, palette, shares, k - 1);
        panel_item_after(before, regions[k - 1], palette, shares[k - 1])
    }
}

fn write_panel_items(
    html: &mut String,
    regions: &Vec<Region>,
    palette: &Vec<[u8; 3]>,
    shares: &Vec<String>,
)
    requires
        shares@.len() == regions@.len(),
    ensures
        final(html)@ == panel_items_after(
            old(html)@,
            regions@,
            palette@,
            shares@,
            regions@.len() as int,
        ),
{
    let ghost start = html@;
    let mut i: usize = 0;
    while i < regions.len()
        invariant
            i <= regions@.len(),
            shares@.len() == regions@.len(),
            html@ == panel_items_after(start, regions@, palette@, shares@, i as int),
        decreases regions@.len() - i,
    {
        write_panel_item(html, &regions[i], palette, &shares[i]);
        i += 1;
    }
}

/// The head of an image's page, behind its title.
pub const SEGMENT_PAGE_STYLE: &'static str = r#"</title>
<style>
:root {
    --bg: #0f0f1a;
    --card: #1a1a2e;
    --text: #e0e0e0;
    --text-dim: #888;
    --accent: #6c63ff;
    --border: #2a2a4a;
}
* { margin:0; padding:0; box-sizing:border-box; }
body {
    background: var(--bg);
    color: var(--text);
    font-family: 'SF Mono', 'Fira Code', 'Cascadia Code', monospace;
    line-height: 1.5;
    padding: 24px;
    max-width: 1400px;
    margin: 0 auto;
}
header {
    text-align: center;
    padding: 32px 20px;
    border-bottom: 2px solid var(--border);
    margin-bottom: 32px;
}
header h1 {
    font-size: 1.6rem;
    color: var(--accent);
    font-weight: 600;
    margin-bottom: 6px;
}
header .meta {
    font-size: 0.8rem;
    color: var(--text-dim);
}
section {
    background: var(--card);
    border-radius: 10px;
    padding: 20px;
    margin-bottom: 24px;
    border: 1px solid var(--border);
}
section h2 {
    font-size: 1rem;
    color: var(--accent);
    margin-bottom: 14px;
    font-weight: 500;
}
canvas {
    display: block;
    max-width: 100%;
    height: auto;
    border-radius: 6px;
    border: 1px solid var(--border);
}
.palette-grid {
    display: flex;
    flex-wrap: wrap;
    gap: 12px;
}
.palette-item {
    display: flex;
    align-items: center;
    gap: 10px;
    background: rgba(255,255,255,0.03);
    border: 1px solid var(--border);
    border-radius: 8px;
    padding: 8px 14px 8px 8px;
    min-width: 160px;
}
.swatch {
    width: 32px;
    height: 32px;
    border-radius: 6px;
    border: 1px solid rgba(255,255,255,0.12);
    flex-shrink: 0;
}
.swatch-info {
    font-size: 0.75rem;
    line-height: 1.4;
}
.swatch-hex {
    color: var(--text);
    font-weight: 500;
}
.swatch-pct {
    color: var(--text-dim);
}
footer {
    text-align: center;
    padding: 16px;
    color: var(--text-dim);
    font-size: 0.7rem;
    border-top: 1px solid var(--border);
    margin-top: 16px;
}
.edge-legend {
    font-size: 0.7rem;
    color: var(--text-dim);
    margin-top: 8px;
    display: flex;
    align-items: center;
    gap: 8px;
}
.edge-legend .bar {
    width: 120px;
    height: 10px;
    border-radius: 5px;
    background: linear-gradient(to right, #000, #fff);
    border: 1px solid var(--border);
}
</style>
</head>
"#;

/// The page with its head appended.
pub open spec fn head_after(html: Seq<char>, name: Seq<char>) -> Seq<char> {
    let html = html + "<!DOCTYPE html>\n<html lang=\"en\">\n<head>\n<meta charset=\"UTF-8\">\n<meta name=\"viewport\" content=\"width=device-width, initial-scale=1.0\">\n<title>Color Segment — "@;
    let html = html + tag_safe(name);
    let html = html + SEGMENT_PAGE_STYLE@;
    html
}

/// Appends the head of an image's page.
pub fn write_html_head(html: &mut String, name: &str)
    ensures
        final(html)@ == head_after(old(html)@, name@),
{
    html.append("<!DOCTYPE html>\n<html lang=\"en\">\n<head>\n<meta charset=\"UTF-8\">\n<meta name=\"viewport\" content=\"width=device-width, initial-scale=1.0\">\n<title>Color Segment — ");
    let title = escape_html(name);
    html.append(title.as_str());
    html.append(SEGMENT_PAGE_STYLE);
}

/// The script of an image's page.
pub const SEGMENT_PAGE_SCRIPT: &'static str = r#"
function loadImage(src) {
    return new Promise(function(resolve) {
        var img = new Image();
        img.onload = function() { resolve(img); };
        img.src = src;
    });
}

async function drawOverlay() {
    var c = document.getElementById('overlay-canvas');
    var ctx = c.getContext('2d');

    var orig   = await loadImage(ORIG_URI);
    var overlay = await loadImage(OVERLAY_URI);
    var boundary = await loadImage(BOUNDARY_URI);

    // 原图
    ctx.drawImage(orig, 0, 0);

    // 半透明区域着色
    ctx.globalAlpha = 0.45;
    ctx.drawImage(overlay, 0, 0);

    // 边界线
    ctx.globalAlpha = 1.0;
    ctx.drawImage(boundary, 0, 0);
}

async function drawEdgeMap() {
    var c = document.getElementById('edge-canvas');
    var ctx = c.getContext('2d');
    var edge = await loadImage(EDGE_URI);
    ctx.drawImage(edge, 0, 0);
}

drawOverlay();
drawEdgeMap();
</script>
"#;

/// The pictures of an image's page, as data URIs.
#[derive(Clone, Debug)]
pub struct PageUris {
    pub original: String,
    pub overlay: String,
    pub boundary: String,
    pub edge: String,
}

/// The page with its body appended.
pub open spec fn segment_body_after(html: Seq<char>, name: Seq<char>, w: u32, h: u32, regions: Seq<Region>, palette: Seq<[u8; 3]>, shares: Seq<String>, uris: PageUris) -> Seq<char> {
    let html = html + "<body>\n<header>\n<h1>"@;
    let html = html + tag_safe(name);
    let html = html + "</h1>\n<div class=\"meta\">"@;
    let html = html + decimal(w as int);
    let html = html + " × "@;
    let html = html + decimal(h as int);
    let html = html + " — "@;
    let html = html + decimal(regions.len() as int);
    let html = html + " regions</div>\n</header>\n<section>\n<h2>Region Overlay</h2>\n<canvas id=\"overlay-canvas\" width=\""@;
    let html = html + decimal(w as int);
    let html = html + "\" height=\""@;
    let html = html + decimal(h as int);
    let html = html + "\"></canvas>\n</section>\n<section>\n<h2>Edge Map</h2>\n<canvas id=\"edge-canvas\" width=\""@;
    let html = html + decimal(w as int);
    let html = html + "\" height=\""@;
    let html = html + decimal(h as int);
    let html = html + "\"></canvas>\n<div class=\"edge-legend\"><span>weak</span><div class=\"bar\"></div><span>strong</span></div>\n</section>\n<section>\n<h2>Color Palette</h2>\n<div class=\"palette-grid\">\n"@;
    let html = panel_items_after(html, regions, palette, shares, regions.len() as int);
    let html = html + "</div>\n</section>\n<footer>Generated by color-segment</footer>\n<script>\nconst ORIG_URI = \""@;
    let html = html + uris.original@;
    let html = html + "\";\nconst OVERLAY_URI = \""@;
    let html = html + uris.overlay@;
    let html = html + "\";\nconst BOUNDARY_URI = \""@;
    let html = html + uris.boundary@;
    let html = html + "\";\nconst EDGE_URI = \""@;
    let html = html + uris.edge@;
    let html = html + "\";\nconst W = "@;
    let html = html + decimal(w as int);
    let html = html + ";\nconst H = "@;
    let html = html + decimal(h as int);
    let html = html + ";\nconst PALETTE = "@;
    let html = html + palette_json(regions, palette, shares);
    let html = html + ";\n"@;
    let html = html + SEGMENT_PAGE_SCRIPT@;
    let html = html + "</body>\n</html>\n"@;
    html
}

/// Appends the body of an image's page.
pub fn write_html_body(html: &mut String, name: &str, w: u32, h: u32, regions: &Vec<Region>, palette: &Vec<[u8; 3]>, shares: &Vec<String>, uris: &PageUris)
    requires
        shares@.len() == regions@.len(),
    ensures
        final(html)@ == segment_body_after(old(html)@, name@, w, h, regions@, palette@, shares@, *uris),
{
    html.append("<body>\n<header>\n<h1>");
    let title = escape_html(name);
    html.append(title.as_str());
    html.append("</h1>\n<div class=\"meta\">");
    push_decimal(html, w as u64);
    html.append(" × ");
    push_decimal(html, h as u64);
    html.append(" — ");
    push_decimal(html, regions.len() as u64);
    html.append(" regions</div>\n</header>\n<section>\n<h2>Region Overlay</h2>\n<canvas id=\"overlay-canvas\" width=\"");
    push_decimal(html, w as u64);
    html.append("\" height=\"");
    push_decimal(html, h as u64);
    html.append("\"></canvas>\n</section>\n<section>\n<h2>Edge Map</h2>\n<canvas id=\"edge-canvas\" width=\"");
    push_decimal(html, w as u64);
    html.append("\" height=\"");
    push_decimal(html, h as u64);
    html.append("\"></canvas>\n<div class=\"edge-legend\"><span>weak</span><div class=\"bar\"></div><span>strong</span></div>\n</section>\n<section>\n<h2>Color Palette</h2>\n<div class=\"palette-grid\">\n");
    write_panel_items(html, regions, palette, shares);
    html.append("</div>\n</section>\n<footer>Generated by color-segment</footer>\n<script>\nconst ORIG_URI = \"");
    html.append(uris.original.as_str());
    html.append("\";\nconst OVERLAY_URI = \"");
    html.append(uris.overlay.as_str());
    html.append("\";\nconst BOUNDARY_URI = \"");
    html.append(uris.boundary.as_str());
    html.append("\";\nconst EDGE_URI = \"");
    html.append(uris.edge.as_str());
    html.append("\";\nconst W = ");
    push_decimal(html, w as u64);
    html.append(";\nconst H = ");
    push_decimal(html, h as u64);
    html.append(";\nconst PALETTE = ");
    let json = build_palette_json(regions, palette, shares);
    html.append(json.as_str());
    html.append(";\n");
    html.append(SEGMENT_PAGE_SCRIPT);
    html.append("</body>\n</html>\n");
}

/// `html` is the page of a segmented image.
pub open spec fn is_segment_page<F: Fn(usize, usize) -> String>(
    result: SegmentResult,
    name: Seq<char>,
    uris: PageUris,
    percent: F,
    html: Seq<char>,
) -> bool {
    exists|shares: Seq<String>|
        {
            &&& #[trigger] share_texts(percent, result.regions@, shares)
            &&& html == segment_body_after(
                head_after(Seq::empty(), name),
                name,
                result.width,
                result.height,
                result.regions@,
                result.palette.colors@,
                shares,
                uris,
            )
        }
}

/// The page of a segmented image; `percent` writes a share in percent.
pub fn segment_page<F: Fn(usize, usize) -> String>(
    result: &SegmentResult,
    name: &str,
    uris: &PageUris,
    percent: &F,
) -> (html: String)
    requires
        total_area(result.regions@, result.regions@.len() as int) <= usize::MAX,
        forall|a: usize, b: usize| b > 0 ==> #[trigger] call_requires(*percent, (a, b)),
    ensures
        is_segment_page(*result, name@, *uris, *percent, html@),
{
    let shares = area_shares(&result.regions, percent);
    let mut html = String::new();
    assert(html@ =~= Seq::empty());
    write_html_head(&mut html, name);
    write_html_body(
        &mut html,
        name,
        result.width,
        result.height,
        &result.regions,
        &result.palette.colors,
        &shares,
        uris,
    );
    html
}

/// The colours of the regions, pixel by pixel.
pub open spec fn overlay_pixels(r: SegmentResult) -> Seq<[u8; 3]> {
    Seq::new(
        r.labels@.len(),
        |i: int| label_color(r.labels@[i], r.regions@, r.palette.colors@),
    )
}

/// The boundaries of the regions, pixel by pixel.
pub open spec fn boundary_pixels(r: SegmentResult) -> Seq<[u8; 4]> {
    Seq::new(
        r.labels@.len(),
        |i: int|
            if on_boundary(r.labels@, r.width as int, i) {
                [20u8, 20u8, 20u8, 255u8]
            } else {
                [0u8, 0u8, 0u8, 0u8]
            },
    )
}

/// The data URI of a PNG file, or nothing where there is no file.
pub open spec fn png_uri_or_empty(file: Option<Seq<u8>>) -> Seq<char> {
    match file {
        Some(f) => png_uri(f),
        None => Seq::empty(),
    }
}

/// The pictures of a segmented image's page: the image, the regions in colour,
/// their boundaries, and the edge strengths in 8 bits.
pub open spec fn uris_of(
    r: SegmentResult,
    original: Seq<char>,
    edge_levels: Seq<u8>,
    uris: PageUris,
) -> bool {
    let w = r.width as int;
    let h = r.height as int;
    &&& uris.original@ == original
    &&& uris.overlay@ == png_uri_or_empty(png_bytes(flat(overlay_pixels(r)), w, h, 3))
    &&& uris.boundary@ == png_uri_or_empty(png_bytes(flat_rgba(boundary_pixels(r)), w, h, 4))
    &&& uris.edge@ == png_uri_or_empty(png_bytes(edge_levels, w, h, 1))
}

fn uri_or_empty(r: Result<String, EncodeError>) -> (s: String)
    ensures
        s@ == match text_of(r) {
            Ok(t) => t,
            Err(_) => Seq::empty(),
        },
{
    match r {
        Ok(s) => s,
        Err(_) => {
            let s = String::new();
            assert(s@ =~= Seq::empty());
            s
        },
    }
}

/// The page of a segmented image, with its pictures.
pub fn generate_html<F: Fn(usize, usize) -> String>(
    result: &SegmentResult,
    name: &str,
    orig_uri: &str,
    edge_levels: &Vec<u8>,
    percent: &F,
) -> (html: String)
    requires
        frame(result.width, result.height, result.labels@.len() as int),
        edge_levels@.len() == result.labels@.len(),
        total_area(result.regions@, result.regions@.len() as int) <= usize::MAX,
        forall|a: usize, b: usize| b > 0 ==> #[trigger] call_requires(*percent, (a, b)),
    ensures
        exists|uris: PageUris|
            uris_of(*result, orig_uri@, edge_levels@, uris) && #[trigger] is_segment_page(
                *result,
                name@,
                uris,
                *percent,
                html@,
            ),
{
    let w = result.width;
    let h = result.height;
    let overlay_img = gen_colored_overlay(result);
    let boundary_img = gen_boundary_overlay(result.labels.as_slice(), w, h);
    assert(overlay_img.pixels@ =~= overlay_pixels(*result));
    assert(boundary_img@ =~= boundary_pixels(*result));
    let overlay_bytes = flatten(overlay_img.pixels.as_slice());
    let boundary_bytes = flatten_rgba(boundary_img.as_slice());
    let uris = PageUris {
        original: String::from_str(orig_uri),
        overlay: uri_or_empty(img_to_png_uri(overlay_bytes.as_slice(), w, h, Layers::Rgb)),
        boundary: uri_or_empty(img_to_png_uri(boundary_bytes.as_slice(), w, h, Layers::Rgba)),
        edge: uri_or_empty(img_to_png_uri(edge_levels.as_slice(), w, h, Layers::Gray)),
    };
    assert(uris_of(*result, orig_uri@, edge_levels@, uris));
    segment_page(result, name, &uris, percent)
}

/// The head of the overview, behind its title.
pub const OVERVIEW_STYLE: &'static str = r#")</title>
<style>
:root {
    --bg: #0f0f1a;
    --card: #1a1a2e;
    --text: #e0e0e0;
    --text-dim: #888;
    --accent: #6c63ff;
    --border: #2a2a4a;
}
* { margin:0; padding:0; box-sizing:border-box; }
body {
    background: var(--bg);
    color: var(--text);
    font-family: 'SF Mono', 'Fira Code', 'Cascadia Code', monospace;
    padding: 24px;
}
header {
    text-align: center;
    padding: 24px;
    border-bottom: 2px solid var(--border);
    margin-bottom: 28px;
}
header h1 { font-size: 1.4rem; color: var(--accent); margin-bottom: 6px; }
header .meta { font-size: 0.75rem; color: var(--text-dim); }
.grid {
    display: grid;
    grid-template-columns: repeat(auto-fill, minmax(280px, 1fr));
    gap: 20px;
}
.card {
    background: var(--card);
    border: 1px solid var(--border);
    border-radius: 10px;
    overflow: hidden;
    transition: border-color 0.15s;
}
.card:hover { border-color: var(--accent); }
.card a { text-decoration: none; color: inherit; display: block; }
.card-thumb {
    width: 100%;
    aspect-ratio: 1;
    object-fit: cover;
    display: block;
    background: #111;
}
.card-info {
    padding: 12px 14px;
}
.card-name {
    font-size: 0.8rem;
    font-weight: 500;
    margin-bottom: 4px;
    white-space: nowrap;
    overflow: hidden;
    text-overflow: ellipsis;
}
.card-meta {
    font-size: 0.65rem;
    color: var(--text-dim);
    display: flex;
    gap: 12px;
    align-items: center;
}
.card-swatches {
    display: flex;
    gap: 3px;
    margin-top: 7px;
}
.card-swatches span {
    width: 14px;
    height: 14px;
    border-radius: 3px;
    border: 1px solid rgba(255,255,255,0.1);
    flex-shrink: 0;
}
footer {
    text-align: center;
    padding: 18px;
    color: var(--text-dim);
    font-size: 0.65rem;
    border-top: 1px solid var(--border);
    margin-top: 24px;
}
</style>
</head>
<body>
<header>
<h1>Color Segment Overview</h1>
"#;

/// A card of the overview.
#[derive(Clone, Debug)]
pub struct CardText {
    pub name_stem: String,
    pub width: u32,
    pub height: u32,
    pub n_regions: usize,
    /// Colours of the largest regions.
    pub top_colors: Vec<[u8; 3]>,
}

/// The page with the first `k` colours of a card.
pub open spec fn dots_after(html: Seq<char>, colors: Seq<[u8; 3]>, k: int) -> Seq<char>
    decreases k,
{
    if k <= 0 {
        html
    } else {
        let html = dots_after(html, colors, k - 1);
        let html = html + "<span style=\"background:"@;
        let html = html + hex_text(colors[k - 1], true);
        html + "\"></span>"@
    }
}

/// Number of colours that a card shows: five at most.
pub open spec fn dot_count(n: int) -> int {
    if n <= 5 {
        n
    } else {
        5
    }
}

fn write_dots(html: &mut String, colors: &Vec<[u8; 3]>)
    ensures
        final(html)@ == dots_after(old(html)@, colors@, dot_count(colors@.len() as int)),
{
    let ghost start = html@;
    let count: usize = if colors.len() <= 5 {
        colors.len()
    } else {
        5
    };
    let mut i: usize = 0;
    while i < count
        invariant
            i <= count <= colors@.len(),
            html@ == dots_after(start, colors@, i as int),
        decreases count - i,
    {
        let hex = rgb_to_hex_upper(colors[i]);
        html.append("<span style=\"background:");
        html.append(hex.as_str());
        html.append("\"></span>");
        i += 1;
    }
}

/// The name of the file of a rendered segmentation.
pub open spec fn seg_png_file(stem: Seq<char>, name: Seq<char>) -> Seq<char> {
    stem + "_"@ + name + "_seg.png"@
}

/// The name of the file of a rendered segmentation.
pub fn seg_png_name(stem: &str, name: &str) -> (s: String)
    ensures
        s@ == seg_png_file(stem@, name@),
{
    let mut s = String::from_str(stem);
    s.append("_");
    s.append(name);
    s.append("_seg.png");
    s
}

/// The name of the file of an image's page.
pub open spec fn html_file(stem: Seq<char>, name: Seq<char>) -> Seq<char> {
    stem + "_"@ + name + ".html"@
}

/// The name of the file of an image's page.
pub fn html_name(stem: &str, name: &str) -> (s: String)
    ensures
        s@ == html_file(stem@, name@),
{
    let mut s = String::from_str(stem);
    s.append("_");
    s.append(name);
    s.append(".html");
    s
}

/// The overview with a card appended.
pub open spec fn card_after(html: Seq<char>, r: CardText, stem: Seq<char>) -> Seq<char> {
    let html = html + "<div class=\"card\">\n<a href=\""@;
    let html = html + html_file(stem, r.name_stem@);
    let html = html + "\">\n<img class=\"card-thumb\" src=\""@;
    let html = html + seg_png_file(stem, r.name_stem@);
    let html = html + "\" alt=\""@;
    let html = html + tag_safe(r.name_stem@);
    let html = html + "\" loading=\"lazy\">\n<div class=\"card-info\">\n<div class=\"card-name\">"@;
    let html = html + tag_safe(r.name_stem@);
    let html = html + "</div>\n<div class=\"card-meta\">\n<span>"@;
    let html = html + decimal(r.width as int);
    let html = html + "×"@;
    let html = html + decimal(r.height as int);
    let html = html + "</span>\n<span>"@;
    let html = html + decimal(r.n_regions as int);
    let html = html + " regions</span>\n</div>\n<div class=\"card-swatches\">"@;
    let html = dots_after(html, r.top_colors@, dot_count(r.top_colors@.len() as int));
    let html = html + "</div>\n</div>\n</a>\n</div>\n"@;
    html
}

/// Appends a card of the overview.
pub fn write_card(html: &mut String, r: &CardText, stem: &str)
    ensures
        final(html)@ == card_after(old(html)@, *r, stem@),
{
    html.append("<div class=\"card\">\n<a href=\"");
    let href = html_name(stem, r.name_stem.as_str());
    html.append(href.as_str());
    html.append("\">\n<img class=\"card-thumb\" src=\"");
    let png = seg_png_name(stem, r.name_stem.as_str());
    html.append(png.as_str());
    html.append("\" alt=\"");
    let title = escape_html(r.name_stem.as_str());
    html.append(title.as_str());
    html.append("\" loading=\"lazy\">\n<div class=\"card-info\">\n<div class=\"card-name\">");
    html.append(title.as_str());
    html.append("</div>\n<div class=\"card-meta\">\n<span>");
    push_decimal(html, r.width as u64);
    html.append("×");
    push_decimal(html, r.height as u64);
    html.append("</span>\n<span>");
    push_decimal(html, r.n_regions as u64);
    html.append(" regions</span>\n</div>\n<div class=\"card-swatches\">");
    write_dots(html, &r.top_colors);
    html.append("</div>\n</div>\n</a>\n</div>\n");
}

/// Appends the cards of the overview, for the first `k`.
pub open spec fn cards_after(html: Seq<char>, results: Seq<CardText>, stem: Seq<char>, k: int) -> Seq<char>
    decreases k,
{
    if k <= 0 {
        html
    } else {
        card_after(cards_after(html, results, stem, k - 1), results[k - 1], stem)
    }
}

/// Appends the cards of the overview.
pub fn write_cards(html: &mut String, results: &Vec<CardText>, stem: &str)
    ensures
        final(html)@ == cards_after(old(html)@, results@, stem@, results@.len() as int),
{
    let ghost start = html@;
    let mut i: usize = 0;
    while i < results.len()
        invariant
            i <= results@.len(),
            html@ == cards_after(start, results@, stem@, i as int),
        decreases results@.len() - i,
    {
        write_card(html, &results[i], stem);
        i += 1;
    }
}

/// The text with the overview appended.
pub open spec fn overview_after(html: Seq<char>, results: Seq<CardText>, stem: Seq<char>) -> Seq<char> {
    let html = html + "<!DOCTYPE html>\n<html lang=\"en\">\n<head>\n<meta charset=\"UTF-8\">\n<meta name=\"viewport\" content=\"width=device-width, initial-scale=1.0\">\n<title>Color Segment — Overview ("@;
    let html = html + stem;
    let html = html + OVERVIEW_STYLE@;
    let html = html + "<div class=\"meta\">"@;
    let html = html + decimal(results.len() as int);
    let html = html + " images — stem: "@;
    let html = html + stem;
    let html = html + "</div>\n</header>\n<div class=\"grid\">\n"@;
    let html = cards_after(html, results, stem, results.len() as int);
    let html = html + "</div>\n<footer>Generated by color-segment</footer>\n</body>\n</html>\n"@;
    html
}

/// Appends the overview.
pub fn write_overview(html: &mut String, results: &Vec<CardText>, stem: &str)
    ensures
        final(html)@ == overview_after(old(html)@, results@, stem@),
{
    html.append("<!DOCTYPE html>\n<html lang=\"en\">\n<head>\n<meta charset=\"UTF-8\">\n<meta name=\"viewport\" content=\"width=device-width, initial-scale=1.0\">\n<title>Color Segment — Overview (");
    html.append(stem);
    html.append(OVERVIEW_STYLE);
    html.append("<div class=\"meta\">");
    push_decimal(html, results.len() as u64);
    html.append(" images — stem: ");
    html.append(stem);
    html.append("</div>\n</header>\n<div class=\"grid\">\n");
    write_cards(html, results, stem);
    html.append("</div>\n<footer>Generated by color-segment</footer>\n</body>\n</html>\n");
}

/// The overview: a card for every image, with a link to its page.
pub fn generate_overview_html(results: &Vec<CardText>, stem: &str) -> (html: String)
    ensures
        html@ == overview_after(Seq::empty(), results@, stem@),
{
    let mut html = String::new();
    assert(html@ =~= Seq::empty());
    write_overview(&mut html, results, stem);
    html
}

/// The style of a report.
pub const REPORT_STYLE: &'static str = r#"<style>
        body { font-family: sans-serif; max-width: 960px; margin: 2em auto; }
        h1 { color: #333; }
        .palette { display: flex; gap: 4px; margin: 1em 0; flex-wrap: wrap; }
        .swatch { width: 80px; height: 80px; border-radius: 8px; display: flex; flex-direction: column; align-items: center; justify-content: flex-end; padding: 4px; box-shadow: 0 2px 6px rgba(0,0,0,0.15); }
        .swatch .hex { background: rgba(255,255,255,0.85); padding: 2px 6px; border-radius: 4px; font-size: 12px; margin-bottom: 4px; font-family: monospace; }
        .swatch .pct { background: rgba(255,255,255,0.85); padding: 2px 6px; border-radius: 4px; font-size: 11px; font-family: monospace; }
        .features { display: flex; flex-wrap: wrap; gap: 8px; margin: 1em 0; }
        .features img { width: 200px; border-radius: 4px; border: 1px solid #ddd; }
        pre { background: #f5f5f5; padding: 1em; border-radius: 6px; overflow-x: auto; font-size: 13px; }
    </style></head><body>"#;

/// A colour of a report, with its share in percent in digits.
#[derive(Clone, Debug)]
pub struct ReportColor {
    pub hex: String,
    pub share: String,
}

/// The report with a colour appended.
pub open spec fn report_color_after(html: Seq<char>, c: ReportColor) -> Seq<char> {
    let html = html + "<div class='swatch' style='background:"@;
    let html = html + c.hex@;
    let html = html + "'><span class='hex'>"@;
    let html = html + c.hex@;
    let html = html + "</span><span class='pct'>"@;
    let html = html + c.share@;
    let html = html + "%</span></div>"@;
    html
}

/// Appends a colour of a report.
pub fn write_report_color(html: &mut String, c: &ReportColor)
    ensures
        final(html)@ == report_color_after(old(html)@, *c),
{
    html.append("<div class='swatch' style='background:");
    html.append(c.hex.as_str());
    html.append("'><span class='hex'>");
    html.append(c.hex.as_str());
    html.append("</span><span class='pct'>");
    html.append(c.share.as_str());
    html.append("%</span></div>");
}

/// Appends the colours of a report, for the first `k`.
pub open spec fn report_colors_after(html: Seq<char>, palette: Seq<ReportColor>, k: int) -> Seq<char>
    decreases k,
{
    if k <= 0 {
        html
    } else {
        report_color_after(report_colors_after(html, palette, k - 1), palette[k - 1])
    }
}

/// Appends the colours of a report.
pub fn write_report_colors(html: &mut String, palette: &Vec<ReportColor>)
    ensures
        final(html)@ == report_colors_after(old(html)@, palette@, palette@.len() as int),
{
    let ghost start = html@;
    let mut i: usize = 0;
    while i < palette.len()
        invariant
            i <= palette@.len(),
            html@ == report_colors_after(start, palette@, i as int),
        decreases palette@.len() - i,
    {
        write_report_color(html, &palette[i]);
        i += 1;
    }
}

/// The text with a report appended.
pub open spec fn report_after(html: Seq<char>, stem: Seq<char>, palette: Seq<ReportColor>, params_yaml: Seq<char>) -> Seq<char> {
    let html = html + "<!DOCTYPE html><html><head><meta charset='utf-8'><title>Impression Color Extract — "@;
    let html = html + stem;
    let html = html + "</title>"@;
    let html = html + REPORT_STYLE@;
    let html = html + "<h1>Impression Color Extract: "@;
    let html = html + stem;
    let html = html + "</h1><h2>Palette</h2><div class='palette'>"@;
    let html = report_colors_after(html, palette, palette.len() as int);
    let html = html + "</div><h2>Config</h2><pre>"@;
    let html = html + tag_safe(params_yaml);
    let html = html + "</pre></body></html>"@;
    html
}

/// Appends a report.
pub fn write_report(html: &mut String, stem: &str, palette: &Vec<ReportColor>, params_yaml: &str)
    ensures
        final(html)@ == report_after(old(html)@, stem@, palette@, params_yaml@),
{
    html.append("<!DOCTYPE html><html><head><meta charset='utf-8'><title>Impression Color Extract — ");
    html.append(stem);
    html.append("</title>");
    html.append(REPORT_STYLE);
    html.append("<h1>Impression Color Extract: ");
    html.append(stem);
    html.append("</h1><h2>Palette</h2><div class='palette'>");
    write_report_colors(html, palette);
    html.append("</div><h2>Config</h2><pre>");
    let config = escape_html(params_yaml);
    html.append(config.as_str());
    html.append("</pre></body></html>");
}

/// What a page shows before its palette.
spec fn segment_body_head(html: Seq<char>, name: Seq<char>, w: u32, h: u32, count: int) -> Seq<char> {
    let html = html + "<body>\n<header>\n<h1>"@;
    let html = html + tag_safe(name);
    let html = html + "</h1>\n<div class=\"meta\">"@;
    let html = html + decimal(w as int);
    let html = html + " × "@;
    let html = html + decimal(h as int);
    let html = html + " — "@;
    let html = html + decimal(count);
    let html = html + " regions</div>\n</header>\n<section>\n<h2>Region Overlay</h2>\n<canvas id=\"overlay-canvas\" width=\""@;
    let html = html + decimal(w as int);
    let html = html + "\" height=\""@;
    let html = html + decimal(h as int);
    let html = html + "\"></canvas>\n</section>\n<section>\n<h2>Edge Map</h2>\n<canvas id=\"edge-canvas\" width=\""@;
    let html = html + decimal(w as int);
    let html = html + "\" height=\""@;
    let html = html + decimal(h as int);
    let html = html + "\"></canvas>\n<div class=\"edge-legend\"><span>weak</span><div class=\"bar\"></div><span>strong</span></div>\n</section>\n<section>\n<h2>Color Palette</h2>\n<div class=\"palette-grid\">\n"@;
    html
}

proof fn panel_grows_alike(
    g: Seq<char>,
    h: Seq<char>,
    regions: Seq<Region>,
    palette: Seq<[u8; 3]>,
    shares: Seq<String>,
    k: int,
    c: char,
)
    ensures
        occurrences(panel_items_after(g, regions, palette, shares, k), c) + occurrences(h, c)
            == occurrences(panel_items_after(h, regions, palette, shares, k), c) + occurrences(g, c),
    decreases k,
{
    occurrences_add_up(c);
    if k > 0 {
        panel_grows_alike(g, h, regions, palette, shares, k - 1, c);
    }
}

/// Whatever the name of its image, a page has the same brackets: a name can open no
/// tag.
pub proof fn image_names_add_no_brackets(
    html: Seq<char>,
    one: Seq<char>,
    other: Seq<char>,
    w: u32,
    h: u32,
    regions: Seq<Region>,
    palette: Seq<[u8; 3]>,
    shares: Seq<String>,
    uris: PageUris,
    c: char,
)
    requires
        c == '<' || c == '>',
    ensures
        occurrences(head_after(html, one), c) == occurrences(head_after(html, other), c),
        occurrences(
            segment_body_after(html, one, w, h, regions, palette, shares, uris),
            c,
        ) == occurrences(segment_body_after(html, other, w, h, regions, palette, shares, uris), c),
{
    occurrences_add_up(c);
    escaped_adds_no_marks(one, false, c);
    escaped_adds_no_marks(other, false, c);
    assert(tag_safe(one) == escaped_text(one, false));
    assert(tag_safe(other) == escaped_text(other, false));
    let n = regions.len() as int;
    let x = segment_body_head(html, one, w, h, n);
    let y = segment_body_head(html, other, w, h, n);
    assert(occurrences(x, c) == occurrences(y, c));
    panel_grows_alike(x, y, regions, palette, shares, n, c);
}

/// Whatever the settings hold, a report has the same brackets.
pub proof fn settings_add_no_brackets(
    html: Seq<char>,
    stem: Seq<char>,
    palette: Seq<ReportColor>,
    one: Seq<char>,
    other: Seq<char>,
    c: char,
)
    requires
        c == '<' || c == '>',
    ensures
        occurrences(report_after(html, stem, palette, one), c) == occurrences(
            report_after(html, stem, palette, other),
            c,
        ),
{
    occurrences_add_up(c);
    escaped_adds_no_marks(one, false, c);
    escaped_adds_no_marks(other, false, c);
    assert(tag_safe(one) == escaped_text(one, false));
    assert(tag_safe(other) == escaped_text(other, false));
}

/// A region's share is its part of the area of all regions; without any area all
/// shares are nothing.
pub proof fn shares_are_of_the_whole<F: Fn(usize, usize) -> String>(
    percent: F,
    regions: Seq<Region>,
    shares: Seq<String>,
    i: int,
)
    requires
        share_texts(percent, regions, shares),
        0 <= i < regions.len(),
        total_area(regions, regions.len() as int) <= usize::MAX,
    ensures
        shares.len() == regions.len(),
        regions[i].area > 0 ==> call_ensures(
            percent,
            (
                regions[i].area,
                crate::segment::region_area_sum(regions, regions.len() as int) as usize,
            ),
            shares[i],
        ),
        (forall|r: int| #![trigger regions[r]] 0 <= r < regions.len() ==> regions[r].area == 0)
            ==> shares[i]@ == "0.0"@,
{
    let n = regions.len() as int;
    totals_agree(regions, n, i);
    assert(share_text(percent, regions[i].area, total_area(regions, n) as usize, shares[i]));
}

proof fn totals_agree(regions: Seq<Region>, k: int, i: int)
    requires
        0 <= k <= regions.len(),
    ensures
        total_area(regions, k) == crate::segment::region_area_sum(regions, k),
        0 <= i < k ==> total_area(regions, k) >= regions[i].area,
        total_area(regions, k) >= 0,
        (forall|r: int| #![trigger regions[r]] 0 <= r < k ==> regions[r].area == 0) ==> total_area(
            regions,
            k,
        ) == 0,
    decreases k,
{
    if k > 0 {
        totals_agree(regions, k - 1, i);
        assert(regions[k - 1] == regions[k - 1]);
    }
}

/// A region is shown in the colour of its cluster, or in grey where that is not
/// known.
pub proof fn regions_show_their_cluster(region: Region, palette: Seq<[u8; 3]>)
    ensures
        region.cluster_id < palette.len() ==> region_hex(region, palette) == hex_text(
            palette[region.cluster_id as int],
            true,
        ),
        region.cluster_id >= palette.len() ==> region_hex(region, palette) == hex_text(
            [128u8, 128u8, 128u8],
            true,
        ),
{
}

/// The report of an image: its palette and the settings that gave it.
pub fn generate_html_report(stem: &str, palette: &Vec<ReportColor>, params_yaml: &str) -> (html:
    String)
    ensures
        html@ == report_after(Seq::empty(), stem@, palette@, params_yaml@),
{
    let mut html = String::new();
    assert(html@ =~= Seq::empty());
    write_report(&mut html, stem, palette, params_yaml);
    html
}

} // verus!
