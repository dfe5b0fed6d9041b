//! Texts: Base64, escaping, colours, names, groups and pages.

use color_extract::algorithms::{Algorithm, ColorSpace};
use color_extract::dims::{
    block_position, blur_radius, blur_window, fit_dimensions, fit_long_side, window_position,
};
use color_extract::encoding::b64_encode;
use color_extract::groups::{
    file_stem, group_files, is_image_extension, parse_stem, ImageFile,
};
use color_extract::names::{fuse_display_name, shorten_feature_name, shorten_name};
use color_extract::page_clusters::{
    cluster_page, write_algo_section, ClusterText, ClustersText, ImageClusters, RunTotals,
};
use color_extract::page_palette::{
    average_millis, palette_page, time_words, write_colorspace_group, ColorText, ImageText,
    PaletteText, TotalText,
};
use color_extract::page_segments::{
    area_shares, build_palette_json, generate_html, generate_html_report,
    generate_overview_html, html_name, seg_png_name, CardText, ReportColor,
};
use color_extract::region::{Palette, Region};
use color_extract::scalar::Scalar;
use color_extract::segment::SegmentResult;
use color_extract::text::{
    escape_html, html_escape, parse_hex, parse_pair, push_decimal, rgb_to_hex, rgb_to_hex_upper,
};

const B64_CHARS: &[u8; 64] = b"ABCDEFGHIJKLMNOPQRSTUVWXYZabcdefghijklmnopqrstuvwxyz0123456789+/";

#[test]
fn test_b64_encode_empty() {
    assert_eq!(b64_encode(b""), "");
}

#[test]
fn test_b64_encode_basic() {
    assert_eq!(b64_encode(b"Man"), "TWFu");
    assert_eq!(b64_encode(b"Ma"), "TWE=");
    assert_eq!(b64_encode(b"M"), "TQ==");
}

#[test]
fn test_b64_encode_roundtrip() {
    let data = b"Hello, world! This is a test of the base64 encoder.";
    let encoded = b64_encode(data);
    let decoded = decode_b64(&encoded);
    assert_eq!(decoded, data.to_vec());
}

fn decode_b64(s: &str) -> Vec<u8> {
    let chars: Vec<u8> = s
        .bytes()
        .filter(|&b| b != b'=')
        .map(|b| B64_CHARS.iter().position(|&c| c == b).unwrap_or(0) as u8)
        .collect();
    let mut out = Vec::new();
    for chunk in chars.chunks(4) {
        if chunk.len() < 2 {
            break;
        }
        let b0 = chunk[0] as u32;
        let b1 = chunk[1] as u32;
        let b2 = if chunk.len() > 2 { chunk[2] as u32 } else { 0 };
        let b3 = if chunk.len() > 3 { chunk[3] as u32 } else { 0 };
        let triple = (b0 << 18) | (b1 << 12) | (b2 << 6) | b3;
        out.push(((triple >> 16) & 0xFF) as u8);
        if chunk.len() > 2 {
            out.push(((triple >> 8) & 0xFF) as u8);
        }
        if chunk.len() > 3 {
            out.push((triple & 0xFF) as u8);
        }
    }
    out
}

#[test]
fn b64_reads_back_all_bytes() {
    let data: Vec<u8> = (0..=255).collect();
    assert_eq!(decode_b64(&b64_encode(&data)), data);
    assert_eq!(b64_encode(&[0xfb, 0xff, 0xfe]), "+//+");
}

#[test]
fn test_fit_dimensions_no_resize() {
    assert_eq!(fit_dimensions(100, 100, 512), (100, 100));
}

#[test]
fn test_fit_dimensions_scale_down() {
    let (w, h) = fit_dimensions(1024, 512, 512);
    assert_eq!(w, 512);
    assert_eq!(h, 256);
}

#[test]
fn test_fit_dimensions_min_1() {
    let (w, h) = fit_dimensions(2048, 1, 512);
    assert_eq!(w, 512);
    assert!(h >= 1);
}

#[test]
fn fitting_again_changes_nothing() {
    let (w, h) = fit_dimensions(4001, 2999, 1023);
    assert_eq!((w, h), (1022, 766));
    assert_eq!(fit_dimensions(w, h, 1023), (w, h));
    let (w, h) = fit_long_side(4001, 2999, 1023);
    assert_eq!((w, h), (1023, 766));
    assert_eq!(fit_long_side(w, h, 1023), (w, h));
}

#[test]
fn sizes_are_scaled_in_double_precision() {
    assert_eq!(fit_dimensions(784, 100, 512), (511, 65));
    assert_eq!(fit_dimensions(100, 784, 512), (65, 511));
    assert_eq!(fit_dimensions(1992, 498, 512), (511, 127));
    for w in (1..5000).step_by(7) {
        for max in [1, 2, 200, 512, 1024] {
            let h = (w * 13) % 4999 + 1;
            let scale = max as f64 / w.max(h) as f64;
            let side = |v: u32| ((v as f64 * scale) as u32).max(1);
            let expected = if w <= max && h <= max {
                (w, h)
            } else {
                (side(w), side(h))
            };
            assert_eq!(fit_dimensions(w, h, max), expected);
        }
    }
    assert_eq!(fit_dimensions(u32::MAX, 1, u32::MAX - 1).1, 1);
    assert_eq!(fit_dimensions(5, 5, 0), (1, 1));
}

#[test]
fn the_long_side_meets_the_limit() {
    assert_eq!(fit_long_side(784, 100, 512), (512, 65));
    assert_eq!(fit_long_side(100, 784, 512), (65, 512));
    assert_eq!(fit_long_side(784, 784, 512), (512, 512));
    assert_eq!(fit_long_side(300, 100, 512), (300, 100));
    assert_eq!(fit_long_side(5, 4, 0), (1, 1));
}

#[test]
fn window_positions_repeat_the_edge() {
    let row: Vec<usize> = (0..5).map(|d| window_position(1, d, 2, 4)).collect();
    assert_eq!(row, vec![0, 0, 1, 2, 3]);
    let end: Vec<usize> = (0..5).map(|d| window_position(3, d, 2, 4)).collect();
    assert_eq!(end, vec![1, 2, 3, 3, 3]);
}

#[test]
fn windows_and_blocks_stop_at_the_edge() {
    assert_eq!(blur_window(1, 3, 10), (0, 4));
    assert_eq!(blur_window(8, 3, 10), (5, 9));
    assert_eq!(block_position(0, 0, 20), 0);
    assert_eq!(block_position(10, 7, 20), 13);
    assert_eq!(block_position(19, 7, 20), 19);
    assert_eq!(blur_radius(480, 0, 24, 8, 32), 20);
    assert_eq!(blur_radius(48, 0, 24, 8, 32), 8);
    assert_eq!(blur_radius(480, 5, 0, 0, 0), 5);
}

#[test]
fn test_escape_html() {
    assert_eq!(escape_html("<script>"), "&lt;script&gt;");
    assert_eq!(escape_html("a & b"), "a &amp; b");
}

#[test]
fn quotes_are_escaped_too() {
    assert_eq!(html_escape("a \"b\" 'c' <d> &"), "a &quot;b&quot; &#39;c&#39; &lt;d&gt; &amp;");
    assert_eq!(escape_html("\"'"), "\"'");
    assert_eq!(html_escape("plain text"), "plain text");
}

#[test]
fn colours_in_hexadecimal() {
    assert_eq!(rgb_to_hex([0, 171, 255]), "#00abff");
    assert_eq!(rgb_to_hex_upper([0, 171, 255]), "#00ABFF");
    assert_eq!(parse_hex("#00abff"), [0, 171, 255]);
    assert_eq!(parse_hex("#00ABFF"), [0, 171, 255]);
    assert_eq!(parse_hex("#zz10+5"), [0, 16, 5]);
    assert_eq!(parse_pair('f', '0'), 240);
    let mut s = String::from("n=");
    push_decimal(&mut s, 10203);
    assert_eq!(s, "n=10203");
    let mut z = String::new();
    push_decimal(&mut z, 0);
    assert_eq!(z, "0");
}

#[test]
fn labels_are_short() {
    assert_eq!(shorten_feature_name("dct_complexity"), "DCT");
    assert_eq!(shorten_feature_name("segment_subject_confidence"), "Seg Subj");
    assert_eq!(shorten_feature_name("other"), "other");
    assert_eq!(fuse_display_name("fused_original_hybrid"), "Orig×Hyb");
    assert_eq!(fuse_display_name("fused_hybrid_filtered"), "Filt Hybrid");
    assert_eq!(shorten_name("spectral"), "Spect Res");
    assert_eq!(shorten_name("x"), "x");
}

#[test]
fn stems_are_split_at_the_page_number() {
    let parts = |s: &str| parse_stem(s);
    assert_eq!(
        parts("100870710_p0"),
        ("100870710_p0".to_string(), "original".to_string())
    );
    assert_eq!(
        parts("100870710_p0_dct_heat"),
        ("100870710_p0".to_string(), "dct_heat".to_string())
    );
    assert_eq!(
        parts("100870710_p12_sr_overlay"),
        ("100870710_p12".to_string(), "sr_overlay".to_string())
    );
    assert_eq!(
        parts("photo"),
        ("photo".to_string(), "original".to_string())
    );
    assert_eq!(
        parts("a_p3x"),
        ("a_p3".to_string(), "original".to_string())
    );
    assert_eq!(parts(""), ("".to_string(), "original".to_string()));
    assert_eq!(parts("_p_"), ("_p".to_string(), "".to_string()));
}

#[test]
fn stems_end_at_the_last_dot() {
    assert_eq!(file_stem("a.b.png"), "a.b");
    assert_eq!(file_stem("noext"), "noext");
    assert_eq!(file_stem(".png"), "");
}

#[test]
fn image_extensions_in_any_case() {
    assert!(is_image_extension("jpg"));
    assert!(is_image_extension("JPEG"));
    assert!(is_image_extension("Png"));
    assert!(!is_image_extension("gif"));
    assert!(!is_image_extension(""));
    assert!(!is_image_extension("pngx"));
}

fn file(source: &str, dir: &str, name: &str, original: bool) -> ImageFile {
    ImageFile {
        source: source.to_string(),
        dir: dir.to_string(),
        name: name.to_string(),
        original,
    }
}

#[test]
fn files_are_grouped_by_prefix() {
    let files = vec![
        file("imgs", "imgs", "2_p0.png", true),
        file("imgs", "imgs", "1_p1_odd.jpg", true),
        file("dct_viz", "output/dct_viz", "2_p0_dct_heat.png", false),
        file("dct_viz", "output/dct_viz", "10_p0_dct_gray.png", false),
    ];
    let groups = group_files(&files);
    let prefixes: Vec<&str> = groups.iter().map(|g| g.prefix.as_str()).collect();
    assert_eq!(prefixes, vec!["10_p0", "1_p1", "2_p0"]);
    assert_eq!(groups[1].images[0].label, "original");
    assert_eq!(groups[2].images.len(), 2);
    assert_eq!(groups[2].images[0].path, "imgs/2_p0.png");
    assert_eq!(groups[2].images[1].path, "output/dct_viz/2_p0_dct_heat.png");
    assert_eq!(groups[2].images[1].label, "dct_heat");
    assert_eq!(groups[2].images[1].source, "dct_viz");
    let total: usize = groups.iter().map(|g| g.images.len()).sum();
    assert_eq!(total, files.len());
}

fn color(hex: &str) -> ColorText {
    ColorText {
        hex: hex.to_string(),
        lightness: "53.2".to_string(),
        share: "40.0".to_string(),
    }
}

fn palette_text(image: usize, space: ColorSpace, millis: u64) -> PaletteText {
    PaletteText {
        image,
        algorithm: Algorithm::MedianCut,
        space,
        palette: vec![color("#111111"), color("#222222")],
        dominant: color("#333333"),
        millis,
        seconds: "1.50".to_string(),
    }
}

#[test]
fn palettes_are_written_with_their_time() {
    let mut html = String::from("<>");
    write_colorspace_group(&mut html, &palette_text(0, ColorSpace::Oklab, 999));
    assert!(html.starts_with("<><div class=\"colorspace-group\">\n<h4>Oklab <span class=\"runtime-badge\">999ms</span></h4>\n"));
    assert!(html.contains("<span class=\"dominant-proportion\">40.0% of pixels | L* 53.2</span>"));
    assert_eq!(html.matches("swatch-card").count(), 2);
    assert_eq!(time_words(1500, "1.50"), "1.50s");
    assert_eq!(time_words(7, "0.01"), "7ms");
    assert_eq!(average_millis(9_000_000, 3), 3);
    assert_eq!(average_millis(9_000_000, 0), 9);
}

#[test]
fn the_palette_page_shows_every_image() {
    let images = vec![
        ImageText {
            filename: "a<b>.png".to_string(),
            width: 20,
            height: 10,
            preview: "data:x".to_string(),
        },
        ImageText {
            filename: "c.png".to_string(),
            width: 3,
            height: 3,
            preview: "data:y".to_string(),
        },
    ];
    let results = vec![
        palette_text(1, ColorSpace::RGB, 10),
        palette_text(0, ColorSpace::HSL, 20),
    ];
    let total = TotalText {
        seconds: "0.1".to_string(),
        average_millis: 15,
    };
    let html = palette_page(&images, &results, &total);
    assert!(html.starts_with("<!DOCTYPE html>"));
    assert!(html.ends_with("</body>\n</html>\n"));
    assert!(html.contains("<p>2 images × 4 algorithms × 5 color spaces = 2 combinations</p>"));
    assert!(html.contains("<h2>a&lt;b&gt;.png</h2>"));
    assert!(html.contains("Dimensions: 20×10 (200 pixels)"));
    assert!(html.find("<h4>HSL").unwrap() < html.find("<h4>RGB").unwrap());
    assert_eq!(html.matches("algorithm-section\">").count(), 8);
}

fn cluster(hex: &str, x: f64) -> ClusterText {
    ClusterText {
        hex: hex.to_string(),
        lightness: "10.0".to_string(),
        share: "5.0".to_string(),
        complexity: "0.125".to_string(),
        score: "0.5000".to_string(),
        avg_x: Scalar::new(x.to_bits()),
        avg_y: Scalar::new(0),
        x: "1.500".to_string(),
        y: "0.000".to_string(),
    }
}

fn clusters_text(x: f64) -> ClustersText {
    ClustersText {
        clusters: vec![cluster("#000001", x), cluster("#000002", 0.0)],
        dominant: cluster("#000003", x),
        millis: 1200,
        seconds: "1.20".to_string(),
    }
}

#[test]
fn clusters_show_their_place_if_they_have_one() {
    let mut html = String::new();
    write_algo_section(&mut html, "Name", "Words", &clusters_text(1.5));
    assert!(html.contains("<h3>Name <span class=\"runtime-badge\">1.20s</span></h3>"));
    assert!(html.contains("c=0.125 | xy=(1.500,0.000)</span>"));
    assert_eq!(html.matches("xy=(").count(), 2);
    let mut plain = String::new();
    write_algo_section(&mut plain, "Name", "Words", &clusters_text(0.0));
    assert_eq!(plain.matches("xy=(").count(), 0);
    assert!(plain.contains("c=0.125</span>"));
}

#[test]
fn the_cluster_page_has_six_sections_for_an_image() {
    let page = ImageClusters {
        img: ImageText {
            filename: "a.png".to_string(),
            width: 4,
            height: 5,
            preview: "data:z".to_string(),
        },
        kmeans: clusters_text(0.0),
        minibatch: clusters_text(0.0),
        kmeans_base: clusters_text(0.0),
        minibatch_base: clusters_text(0.0),
        kmeans_6d: clusters_text(1.0),
        minibatch_6d: clusters_text(1.0),
    };
    let totals = RunTotals {
        seconds: "7.2".to_string(),
        average_millis: 1200,
    };
    let html = cluster_page(&vec![page], &totals);
    assert_eq!(html.matches("<section class=\"algo-section\">").count(), 6);
    assert!(html.contains("4×5 px (20 pixels)"));
    assert!(html.contains(
        "<div class=\"stat-value\">2</div><div class=\"stat-label\">Clusters per Image</div>"
    ));
    let none = cluster_page(&vec![], &totals);
    assert!(none.contains(
        "<div class=\"stat-value\">0</div><div class=\"stat-label\">Clusters per Image</div>"
    ));
}

fn region(id: usize, cluster_id: usize, area: usize) -> Region {
    Region {
        id,
        cluster_id,
        area,
        sum_x: 0,
        sum_y: 0,
        bbox: (0, 0, 1, 1),
        pixel_count: area,
    }
}

#[test]
fn palettes_as_json() {
    let regions = vec![region(0, 0, 3), region(1, 5, 1)];
    let percent = |a: usize, b: usize| format!("{:.1}", a as f64 / b as f64 * 100.0);
    let shares = area_shares(&regions, &percent);
    assert_eq!(shares, vec!["75.0".to_string(), "25.0".to_string()]);
    let json = build_palette_json(&regions, &vec![[255, 0, 16]], &shares);
    assert_eq!(
        json,
        "[{\"color\":\"#FF0010\",\"area_pct\":75.0,\"area\":3},{\"color\":\"#808080\",\"area_pct\":25.0,\"area\":1}]"
    );
    let none = vec![region(0, 0, 0)];
    assert_eq!(area_shares(&none, &percent), vec!["0.0".to_string()]);
    assert_eq!(build_palette_json(&vec![], &vec![], &vec![]), "[]");
}

#[test]
fn the_page_of_a_segmented_image_holds_its_pictures() {
    let result = SegmentResult {
        regions: vec![region(0, 0, 4)],
        labels: vec![Some(0); 4],
        palette: Palette {
            colors: vec![[1, 2, 3]],
            counts: vec![4],
        },
        edge_map: vec![Scalar::new(0); 4],
        width: 2,
        height: 2,
    };
    let percent = |_: usize, _: usize| "100.0".to_string();
    let html = generate_html(&result, "x & y", "data:orig", &vec![0, 1, 2, 3], &percent);
    assert!(html.contains("<title>Color Segment — x &amp; y</title>"));
    assert!(html.contains("<div class=\"meta\">2 × 2 — 1 regions</div>"));
    assert!(html.contains("const ORIG_URI = \"data:orig\";"));
    assert!(html.contains("const OVERLAY_URI = \"data:image/png;base64,iVBORw0KGgo"));
    assert!(html.contains("const BOUNDARY_URI = \"data:image/png;base64,iVBORw0KGgo"));
    assert!(html.contains("const EDGE_URI = \"data:image/png;base64,iVBORw0KGgo"));
    assert!(html.contains("100.0% — 4 px"));
    assert!(html.contains("drawEdgeMap();"));
    assert!(html.ends_with("</body>\n</html>\n"));
}

#[test]
fn the_overview_links_to_the_pages() {
    let cards = vec![CardText {
        name_stem: "a<b".to_string(),
        width: 7,
        height: 8,
        n_regions: 3,
        top_colors: vec![[0, 0, 1], [0, 0, 2], [0, 0, 3], [0, 0, 4], [0, 0, 5], [0, 0, 6]],
    }];
    let html = generate_overview_html(&cards, "run");
    assert!(html.contains("<title>Color Segment — Overview (run)</title>"));
    assert!(html.contains("1 images — stem: run"));
    assert!(html.contains("<a href=\"run_a<b.html\">"));
    assert!(html.contains("src=\"run_a<b_seg.png\" alt=\"a&lt;b\""));
    assert!(html.contains("<span>7×8</span>"));
    assert_eq!(html.matches("<span style=\"background:#").count(), 5);
    assert_eq!(html_name("run", "a"), "run_a.html");
    assert_eq!(seg_png_name("run", "a"), "run_a_seg.png");
}

#[test]
fn reports_escape_the_settings() {
    let palette = vec![ReportColor {
        hex: "#010203".to_string(),
        share: "12.5".to_string(),
    }];
    let html = generate_html_report("stem", &palette, "a: <b>");
    assert!(html.contains("<h1>Impression Color Extract: stem</h1>"));
    assert!(html.contains("<span class='hex'>#010203</span><span class='pct'>12.5%</span>"));
    assert!(html.ends_with("<pre>a: &lt;b&gt;</pre></body></html>"));
}

#[test]
fn base64_has_a_length_and_an_alphabet() {
    for n in 0..20usize {
        let data: Vec<u8> = (0..n).map(|i| (i * 37 + 250) as u8).collect();
        let text = b64_encode(&data);
        assert_eq!(text.len(), 4 * ((n + 2) / 3));
        let padding = text.chars().filter(|&c| c == '=').count();
        assert_eq!(padding, (3 - n % 3) % 3);
        let letters = &text[..text.len() - padding];
        assert!(letters
            .chars()
            .all(|c| c.is_ascii_alphanumeric() || c == '+' || c == '/'));
    }
}

#[test]
fn base64_joins_at_multiples_of_three() {
    let a = [1u8, 2, 3, 250, 251, 252];
    let b = [9u8, 8, 7, 6];
    let joined: Vec<u8> = a.iter().chain(&b).copied().collect();
    assert_eq!(b64_encode(&joined), b64_encode(&a) + &b64_encode(&b));
}

#[test]
fn escaping_works_piece_by_piece() {
    let (a, b) = ("a<&", ";'\"amp;");
    assert_eq!(html_escape(&format!("{a}{b}")), html_escape(a) + &html_escape(b));
    assert_eq!(escape_html(&format!("{a}{b}")), escape_html(a) + &escape_html(b));
    assert_eq!(html_escape("a<&;'"), "a&lt;&amp;;&#39;");
}

#[test]
fn escaped_texts_differ() {
    let texts = ["<", "&lt;", "&amp;lt;", "&", "&amp;", "\"", "&quot;", "'", "&#39;", ""];
    for (i, a) in texts.iter().enumerate() {
        for b in &texts[..i] {
            assert_ne!(html_escape(a), html_escape(b));
            assert_ne!(escape_html(a), escape_html(b));
        }
    }
}

#[test]
fn stems_are_made_of_prefix_and_method() {
    for (id, page, rest, method) in [
        ("100870710", "0", "_dct_heat", "dct_heat"),
        ("a_", "12", "", "original"),
        ("p", "", "_x_p3", "x_p3"),
        ("", "7", "-small", "original"),
    ] {
        let prefix = format!("{id}_p{page}");
        let parts = parse_stem(&format!("{prefix}{rest}"));
        assert_eq!(parts, (prefix.clone(), method.to_string()));
        assert_eq!(parse_stem(&prefix), (prefix, "original".to_string()));
    }
    assert_eq!(
        parse_stem("no mark"),
        ("no mark".to_string(), "original".to_string())
    );
}
