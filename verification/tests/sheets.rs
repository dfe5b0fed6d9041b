//! Images: drawing, thumbnails, contact sheets and data URIs.

use base64::Engine;
use color_extract::canvas::{
    draw_text_rgb, make_empty_thumb, make_palette_thumb, make_swatch_thumb, overlay, Canvas,
};
use color_extract::encoding::{
    flatten, flatten_rgba, image_to_base64_jpeg, img_to_jpeg_uri, img_to_png_uri, EncodeError,
    Layers,
};
use color_extract::params::ContactSheetParams;
use color_extract::scalar::Scalar;
use color_extract::sheet::{cell_height, layout_full, layout_small, pad_to_align, Cell};
use color_extract::thumbs::{
    make_contact_sheet, make_contact_sheet_full, make_thumb_gray, make_thumb_rgb, preview_uri,
    shrink_long_side, shrink_to_fit, PaletteEntry,
};
use color_extract::timing::timed;

fn gradient(w: u32, h: u32) -> Vec<[u8; 3]> {
    (0..w * h)
        .map(|i| [(i % w * 7) as u8, (i / w * 11) as u8, (i * 3) as u8])
        .collect()
}

#[test]
fn canvases_ignore_places_outside() {
    let mut c = Canvas::filled(3, 2, [9, 9, 9]);
    c.put(2, 1, [1, 2, 3]);
    c.put(3, 0, [0, 0, 0]);
    c.put(-1, 0, [0, 0, 0]);
    assert_eq!(c.get(2, 1), [1, 2, 3]);
    assert_eq!(c.pixels.iter().filter(|&&p| p == [9, 9, 9]).count(), 5);
}

#[test]
fn overlays_are_clipped() {
    let mut base = make_empty_thumb(4, 3);
    let top = make_swatch_thumb([5, 6, 7], 3, 3);
    overlay(&mut base, &top, 2, 1);
    assert_eq!(base.get(1, 1), [255, 255, 255]);
    assert_eq!(base.get(2, 1), [5, 6, 7]);
    assert_eq!(base.get(3, 2), [5, 6, 7]);
    assert_eq!(base.get(3, 0), [255, 255, 255]);
}

#[test]
fn palettes_are_bars() {
    let c = make_palette_thumb(&[[1, 1, 1], [2, 2, 2], [3, 3, 3]], 10, 2);
    assert_eq!(c.get(2, 0), [1, 1, 1]);
    assert_eq!(c.get(3, 1), [2, 2, 2]);
    assert_eq!(c.get(9, 1), [3, 3, 3]);
    assert_eq!(make_palette_thumb(&[], 2, 1).get(0, 0), [255, 255, 255]);
}

#[test]
fn letters_are_drawn_with_the_font() {
    let mut c = make_empty_thumb(16, 8);
    draw_text_rgb(&mut c, "Ai", 0, 0, [0, 0, 0]);
    let glyph = font8x8::legacy::BASIC_LEGACY[b'A' as usize];
    for y in 0..8u32 {
        for x in 0..8u32 {
            let ink = (glyph[y as usize] >> x) & 1 != 0;
            assert_eq!(c.get(x, y) == [0, 0, 0], ink);
        }
    }
    let mut clipped = make_empty_thumb(4, 4);
    draw_text_rgb(&mut clipped, "WWW", -3, 2, [0, 0, 0]);
    assert_eq!(clipped.get(0, 0), [255, 255, 255]);
    let mut blank = make_empty_thumb(8, 8);
    draw_text_rgb(&mut blank, "", 0, 0, [0, 0, 0]);
    assert!(blank.pixels.iter().all(|&p| p == [255, 255, 255]));
}

#[test]
fn thumbnails_have_the_size_asked_for() {
    let src = gradient(12, 8);
    let same = make_thumb_rgb(&src, 12, 8, 12, 8);
    assert_eq!(same.pixels, src);
    let small = make_thumb_rgb(&src, 12, 8, 6, 4);
    assert_eq!(small.pixels.len(), 24);
    let img = image::RgbImage::from_raw(12, 8, src.iter().flatten().copied().collect()).unwrap();
    let want = image::imageops::resize(&img, 6, 4, image::imageops::FilterType::Lanczos3);
    let got: Vec<u8> = small.pixels.iter().flatten().copied().collect();
    assert_eq!(got, want.into_raw());
}

#[test]
fn grey_thumbnails_are_grey() {
    let levels: Vec<u8> = (0..96).map(|i| (i * 2) as u8).collect();
    let small = make_thumb_gray(&levels, 12, 8, 6, 4);
    assert!(small.pixels.iter().all(|p| p[0] == p[1] && p[1] == p[2]));
    let img = image::GrayImage::from_raw(12, 8, levels).unwrap();
    let want = image::imageops::resize(&img, 6, 4, image::imageops::FilterType::Lanczos3);
    let got: Vec<u8> = small.pixels.iter().map(|p| p[0]).collect();
    assert_eq!(got, want.into_raw());
    let blank = make_thumb_gray(&[], 12, 8, 6, 4);
    assert!(blank.pixels.iter().all(|&p| p == [255, 255, 255]));
}

#[test]
fn images_shrink_to_fit() {
    let src = gradient(20, 10);
    let c = shrink_to_fit(&src, 20, 10, 8);
    assert_eq!((c.width, c.height), (8, 4));
    let long = shrink_long_side(&gradient(784, 2), 784, 2, 512);
    assert_eq!((long.width, long.height), (512, 1));
    let kept = shrink_to_fit(&src, 20, 10, 20);
    assert_eq!(kept.pixels, src);
}

#[test]
fn png_uris_decode_to_the_image() {
    let src = gradient(5, 3);
    let uri = img_to_png_uri(&flatten(&src), 5, 3, Layers::Rgb).unwrap();
    let text = uri.strip_prefix("data:image/png;base64,").unwrap();
    let file = base64::engine::general_purpose::STANDARD
        .decode(text)
        .unwrap();
    let back = image::load_from_memory(&file).unwrap().to_rgb8();
    assert_eq!(back.into_raw(), flatten(&src));
    let rgba = flatten_rgba(&[[1, 2, 3, 4], [5, 6, 7, 8]]);
    let uri = img_to_png_uri(&rgba, 2, 1, Layers::Rgba).unwrap();
    let file = base64::engine::general_purpose::STANDARD
        .decode(uri.strip_prefix("data:image/png;base64,").unwrap())
        .unwrap();
    assert_eq!(
        image::load_from_memory(&file).unwrap().to_rgba8().into_raw(),
        vec![1, 2, 3, 4, 5, 6, 7, 8]
    );
    let gray = img_to_png_uri(&[7, 8], 2, 1, Layers::Gray).unwrap();
    assert!(gray.starts_with("data:image/png;base64,iVBORw0KGgo"));
}

#[test]
fn images_without_pixels_have_no_uri() {
    let png = img_to_png_uri(&[], 0, 0, Layers::Rgb);
    assert_eq!(png, Err(EncodeError::Png));
    assert_eq!(png.unwrap_err().message(), "encoding image to PNG");
    let jpeg = img_to_jpeg_uri(&[], 0, 0);
    assert_eq!(jpeg, Err(EncodeError::Jpeg));
    assert_eq!(jpeg.unwrap_err().message(), "encoding image to JPEG");
}

#[test]
fn jpeg_uris_decode_to_an_image_of_the_size() {
    let src = gradient(16, 9);
    let data = flatten(&src);
    let uri = img_to_jpeg_uri(&data, 16, 9).unwrap();
    assert_eq!(image_to_base64_jpeg(&data, 16, 9).unwrap(), uri);
    let file = base64::engine::general_purpose::STANDARD
        .decode(uri.strip_prefix("data:image/jpeg;base64,").unwrap())
        .unwrap();
    let img = image::load_from_memory(&file).unwrap();
    assert_eq!((img.width(), img.height()), (16, 9));
}

#[test]
fn previews_are_at_most_200_pixels() {
    let src = gradient(401, 100);
    let uri = preview_uri(&src, 401, 100).unwrap();
    let file = base64::engine::general_purpose::STANDARD
        .decode(uri.strip_prefix("data:image/jpeg;base64,").unwrap())
        .unwrap();
    let img = image::load_from_memory(&file).unwrap();
    assert_eq!((img.width(), img.height()), (200, 49));
}

#[test]
fn rows_are_filled_up() {
    let mut cells = vec![Cell::Original, Cell::Feature(0), Cell::Feature(1)];
    pad_to_align(&mut cells, 5);
    assert_eq!(cells.len(), 5);
    assert_eq!(cells[4], Cell::Blank);
    pad_to_align(&mut cells, 5);
    assert_eq!(cells.len(), 5);
    let mut none: Vec<Cell> = vec![];
    pad_to_align(&mut none, 3);
    assert!(none.is_empty());
}

#[test]
fn full_sheets_align_fused_and_filtered_maps() {
    let (cells, rows) = layout_full(9, 6, 1, [true, false, true], 5, 1);
    assert_eq!(rows, 4);
    assert_eq!(cells.len(), 20);
    assert_eq!(cells[0], Cell::Original);
    assert_eq!(cells[9], Cell::Feature(8));
    assert_eq!(cells[10], Cell::Blank);
    assert_eq!(cells[11], Cell::Fused(0));
    assert_eq!(cells[14], Cell::Extra(0));
    assert_eq!(cells[16], Cell::Fused(3));
    assert_eq!(cells[19], Cell::Swatch(0));
    let (cells, rows) = layout_full(3, 2, 0, [false; 3], 5, 2);
    assert_eq!(rows, 2);
    assert_eq!(cells[3], Cell::Feature(2));
    assert!(cells[4..].iter().all(|&c| c == Cell::Blank));
}

#[test]
fn small_sheets_end_with_the_palette() {
    let cells = layout_small(2, 1, true, 3);
    assert_eq!(
        cells,
        vec![
            Cell::Original,
            Cell::Feature(0),
            Cell::Feature(1),
            Cell::Fused(0),
            Cell::Palette,
            Cell::Blank
        ]
    );
}

#[test]
fn cells_keep_proportions() {
    assert_eq!(cell_height(100, 200, 101), 51);
    assert_eq!(cell_height(100, 200, 100), 50);
    assert_eq!(cell_height(3, 7, 5), 2);
}

#[test]
fn a_full_sheet_shows_pictures_and_labels() {
    let original = vec![[10u8, 20, 30]; 4 * 2];
    let map = vec![77u8; 8];
    let features: Vec<(&str, &[u8])> = vec![("dct_complexity", &map), ("lab_gradient", &[])];
    let fused: Vec<(&str, &[u8])> = vec![
        ("fused_add", &map),
        ("fused_softmul", &map),
        ("fused_hybrid", &map),
        ("fused_add_filtered", &map),
        ("fused_softmul_filtered", &map),
        ("fused_hybrid_filtered", &map),
    ];
    let extra: Vec<(&str, &[[u8; 3]])> = vec![("fused_original_hybrid", &original)];
    let layout = ContactSheetParams {
        cols: 5,
        rows: 1,
        pad: 2,
        thumb_w: 100,
        label_h: 14,
    };
    let sheet = make_contact_sheet_full(
        &original,
        &features,
        &fused,
        &extra,
        Some([1, 1, 1]),
        Some([2, 2, 2]),
        Some([3, 3, 3]),
        4,
        2,
        &layout,
        "",
    );
    assert_eq!((sheet.width, sheet.height), (5 * 6 + 2, 3 * 18 + 2));
    assert_eq!(sheet.get(0, 0), [255, 255, 255]);
    assert_eq!(sheet.get(2, 2), [10, 20, 30]);
    assert_eq!(sheet.get(8, 3), [77, 77, 77]);
    assert_eq!(sheet.get(14, 2), [255, 255, 255]);
    assert_eq!(sheet.get(8, 20), [77, 77, 77]);
    assert_eq!(sheet.get(26, 38), [1, 1, 1]);
    assert!(sheet.pixels.iter().any(|&p| p == [40, 40, 40]));
}

#[test]
fn a_small_sheet_shows_the_palette() {
    let original = vec![[10u8, 20, 30]; 6 * 3];
    let map = vec![50u8; 18];
    let features: Vec<(&str, &[u8])> = vec![("dct", &map)];
    let palette = vec![
        PaletteEntry {
            rgb: [Scalar::new(0); 3],
            hex: "#ff0000".to_string(),
            proportion: Scalar::new(0),
        },
        PaletteEntry {
            rgb: [Scalar::new(0); 3],
            hex: "#00ff00".to_string(),
            proportion: Scalar::new(0),
        },
    ];
    let sheet = make_contact_sheet(&original, &features, &[], 6, 3, 2, 6, &palette, "1");
    assert_eq!((sheet.width, sheet.height), (2 * 10 + 4, 2 * 27 + 4));
    assert_eq!(sheet.get(4, 4), [10, 20, 30]);
    assert_eq!(sheet.get(14, 4), [50, 50, 50]);
    assert_eq!(sheet.get(4, 31), [255, 0, 0]);
    assert_eq!(sheet.get(9, 31), [0, 255, 0]);
    assert!(sheet.pixels.iter().any(|&p| p == [120, 120, 120]));
}

#[test]
fn computations_are_timed() {
    let (v, d) = timed(|| {
        let mut sum = 0u64;
        for i in 0..1000u64 {
            sum += i;
        }
        sum
    });
    assert_eq!(v, 499500);
    assert!(d.as_secs() < 20);
}
