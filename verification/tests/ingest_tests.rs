use quizmark::ingest::{bgra_to_rgba, parse_page_tag, parse_u32_text};
use rxing::Writer;

#[test]
fn numbers_parse_as_u32_does() {
    assert_eq!(parse_u32_text("12"), Some(12));
    assert_eq!(parse_u32_text("007"), Some(7));
    assert_eq!(parse_u32_text("+5"), Some(5));
    assert_eq!(parse_u32_text("4294967295"), Some(u32::MAX));
    assert_eq!(parse_u32_text("4294967296"), None);
    assert_eq!(parse_u32_text(""), None);
    assert_eq!(parse_u32_text("+"), None);
    assert_eq!(parse_u32_text("-1"), None);
    assert_eq!(parse_u32_text("1a"), None);
    assert_eq!(parse_u32_text(" 1"), None);
}

#[test]
fn page_tags_split_at_the_first_at_sign() {
    assert_eq!(parse_page_tag("alice@3"), Some((String::from("alice"), Some(3))));
    assert_eq!(parse_page_tag("@0"), Some((String::new(), Some(0))));
    assert_eq!(parse_page_tag("a@b@2"), Some((String::from("a"), None)));
    assert_eq!(parse_page_tag("bob@"), Some((String::from("bob"), None)));
    assert_eq!(parse_page_tag("nobody"), None);
}

#[test]
fn tag_of_a_page_reads_back() {
    let tag = format!("{}@{}", "carol", 17u32);
    assert_eq!(parse_page_tag(&tag), Some((String::from("carol"), Some(17))));
}

#[test]
fn surface_bytes_are_reordered_to_rgba() {
    // two pixels in one row, blue-green-red-alpha
    let data = vec![1, 2, 3, 4, 5, 6, 7, 8];
    let img = bgra_to_rgba(&data, 8, 2, 1);
    assert_eq!((img.width, img.height), (2, 1));
    assert_eq!(img.pixels, vec![3, 2, 1, 4, 7, 6, 5, 8]);
}

#[test]
fn surface_rows_may_be_padded() {
    // one pixel per row, rows 8 bytes apart
    let data = vec![10, 20, 30, 40, 0, 0, 0, 0, 50, 60, 70, 80];
    let img = bgra_to_rgba(&data, 8, 1, 2);
    assert_eq!(img.pixels, vec![30, 20, 10, 40, 70, 60, 50, 80]);
    let empty = bgra_to_rgba(&[], 0, 0, 0);
    assert!(empty.pixels.is_empty());
}

fn barcode_page(text: &str) -> quizmark::imaging::RgbaGrid {
    let matrix = rxing::pdf417::PDF417Writer
        .encode(text, &rxing::BarcodeFormat::PDF_417, 600, 200)
        .unwrap();
    let margin = 40u32;
    let (w, h) = (matrix.width() + 2 * margin, matrix.height() + 2 * margin);
    let mut pixels = Vec::new();
    for y in 0..h {
        for x in 0..w {
            let inside = x >= margin && y >= margin && x < w - margin && y < h - margin;
            let dark = inside && matrix.get(x - margin, y - margin);
            let v = if dark { 0 } else { 255 };
            pixels.extend_from_slice(&[v, v, v, 255]);
        }
    }
    quizmark::imaging::RgbaGrid { width: w, height: h, pixels }
}

#[test]
fn page_tag_is_read_from_the_barcode() {
    let page = barcode_page("alice@3");
    let text = quizmark::ingest::read_page_tag(&page).unwrap();
    assert_eq!(text, "alice@3");
    assert_eq!(parse_page_tag(&text), Some((String::from("alice"), Some(3))));
}

#[test]
fn barcode_without_at_sign_gives_no_tag() {
    let page = barcode_page("no tag here");
    let text = quizmark::ingest::read_page_tag(&page).unwrap();
    assert_eq!(parse_page_tag(&text), None);
}

#[test]
fn blank_page_has_no_tag() {
    let page = quizmark::imaging::RgbaGrid { width: 50, height: 40, pixels: vec![255; 50 * 40 * 4] };
    assert_eq!(quizmark::ingest::read_page_tag(&page), None);
}
