use font2bytes::{DecodedImage, FontError, FontToBytes, is_png_file, pack_glyph, str_le, unpack_glyph};

fn img(width: u32, height: u32, fill: u8) -> DecodedImage {
    DecodedImage::new(width, height, vec![fill; (width * height) as usize]).unwrap()
}

fn strings(names: &[&str]) -> Vec<String> {
    names.iter().map(|n| n.to_string()).collect()
}

const HEADER_FONT_2_1_8: &str = "#ifndef FONT_H_\n#define FONT_H_\n\n#define FONT_IDX_CNT          (2u)\n#define FONT_WIDTH_BYTES      (1u)\n#define FONT_HEIGHT_ROWS      (8u)\n#define FONT_BYTES_PER_CHAR   (FONT_HEIGHT_ROWS * FONT_WIDTH_BYTES)\n\nstatic const unsigned char font[FONT_IDX_CNT][FONT_BYTES_PER_CHAR] = {";

#[test]
fn scenario_black_and_white_pair() {
    let table = FontToBytes::new(
        "dir".to_string(),
        strings(&["a.png", "b.png"]),
        "font".to_string(),
    );
    let images = vec![img(8, 8, 0), img(8, 8, 255)];
    let out = table.run(&images).unwrap();
    let expected = format!(
        "{}\n\t// dir/a.png\n\t{{0x00, 0x00, 0x00, 0x00, 0x00, 0x00, 0x00, 0x00}},\n\t// dir/b.png\n\t{{0xFF, 0xFF, 0xFF, 0xFF, 0xFF, 0xFF, 0xFF, 0xFF}},\n}};\n\n#endif",
        HEADER_FONT_2_1_8
    );
    assert_eq!(out, expected);
}

#[test]
fn fragments_follow_filename_order_not_listing_order() {
    let table = FontToBytes::new(
        "dir".to_string(),
        strings(&["b.png", "a.png"]),
        "font".to_string(),
    );
    assert_eq!(table.files, strings(&["a.png", "b.png"]));
    let images = vec![img(8, 8, 0), img(8, 8, 255)];
    let out = table.run(&images).unwrap();
    let a_at = out.find("a.png").unwrap();
    let b_at = out.find("b.png").unwrap();
    assert!(a_at < b_at);
}

#[test]
fn same_directory_contents_give_identical_output() {
    let listing_one = strings(&["b.png", "a.png", "notes.txt", "c.png"]);
    let listing_two = strings(&["c.png", "notes.txt", "a.png", "b.png"]);
    let t1 = FontToBytes::new("d".to_string(), listing_one, "font".to_string());
    let t2 = FontToBytes::new("d".to_string(), listing_two, "font".to_string());
    assert_eq!(t1.files, t2.files);
    let images = vec![img(8, 8, 0), img(8, 8, 255), img(8, 8, 7)];
    let out1 = t1.run(&images).unwrap();
    let out2 = t2.run(&images).unwrap();
    assert_eq!(out1, out2);
}

#[test]
fn header_count_matches_matching_files_only() {
    let entries = strings(&["z.txt", "b.png", "a.png", ".png", "c.PNG", "png"]);
    let table = FontToBytes::new("d".to_string(), entries, "font".to_string());
    assert_eq!(table.files, strings(&["a.png", "b.png"]));
    let images = vec![img(8, 8, 0), img(8, 8, 0)];
    let out = table.run(&images).unwrap();
    assert!(out.contains("#define FONT_IDX_CNT          (2u)"));
}

#[test]
fn empty_directory_is_a_fatal_error() {
    let table = FontToBytes::new("d".to_string(), strings(&["notes.txt"]), "font".to_string());
    assert_eq!(table.files.len(), 0);
    let result = table.run(&vec![]);
    assert!(matches!(result, Err(FontError::NoGlyphs)));
}

#[test]
fn width_not_multiple_of_eight_is_rejected() {
    let table = FontToBytes::new("d".to_string(), strings(&["a.png"]), "font".to_string());
    let images = vec![img(4, 2, 0)];
    let result = table.run(&images);
    assert!(matches!(result, Err(FontError::BadWidth)));
}

#[test]
fn mismatched_dimensions_are_rejected() {
    let table = FontToBytes::new(
        "d".to_string(),
        strings(&["a.png", "b.png"]),
        "font".to_string(),
    );
    let images = vec![img(8, 8, 0), img(8, 4, 0)];
    let result = table.run(&images);
    assert!(matches!(result, Err(FontError::DimensionMismatch)));
}

#[test]
fn error_messages_name_the_problem() {
    assert_eq!(FontError::NoGlyphs.message(), "no matching image files found");
    assert_eq!(FontError::BadWidth.message(), "glyph width is not a multiple of 8");
    assert_eq!(
        FontError::DimensionMismatch.message(),
        "glyph dimensions do not match the first glyph"
    );
}

#[test]
fn first_pixel_lands_in_the_most_significant_bit() {
    let alternating = vec![0u8, 255, 0, 255, 0, 255, 0, 255];
    assert_eq!(pack_glyph(&alternating), vec![0x55]);
    let ends_only = vec![255u8, 0, 0, 0, 0, 0, 0, 1];
    assert_eq!(pack_glyph(&ends_only), vec![0x81]);
    let leading = vec![200u8, 0, 0, 0, 0, 0, 0, 0];
    assert_eq!(pack_glyph(&leading), vec![0x80]);
}

#[test]
fn any_nonzero_sample_counts_as_lit() {
    let faint = vec![1u8, 0, 0, 0, 0, 0, 0, 0];
    assert_eq!(pack_glyph(&faint), vec![0x80]);
}

#[test]
fn unpacking_reverses_packing() {
    let pixels = vec![0u8, 3, 0, 0, 200, 0, 255, 0, 0, 0, 0, 9, 0, 0, 0, 128];
    let packed = pack_glyph(&pixels);
    assert_eq!(packed.len(), 2);
    let bits = unpack_glyph(&packed);
    let expected: Vec<bool> = pixels.iter().map(|p| *p != 0).collect();
    assert_eq!(bits, expected);
}

#[test]
fn packed_length_is_row_bytes_times_height() {
    let wide = img(16, 3, 255);
    let packed = pack_glyph(&wide.pixels);
    assert_eq!(packed.len(), (16 / 8) * 3);
}

#[test]
fn twelve_bytes_per_line_then_a_break() {
    let table = FontToBytes::new("d".to_string(), strings(&["g.png"]), "font".to_string());
    let images = vec![img(16, 8, 255)];
    let out = table.run(&images).unwrap();
    let body = "\n\t{0xFF, 0xFF, 0xFF, 0xFF, 0xFF, 0xFF, 0xFF, 0xFF, 0xFF, 0xFF, 0xFF, 0xFF,\n\t 0xFF, 0xFF, 0xFF, 0xFF},";
    assert!(out.contains(body));
}

#[test]
fn hex_digits_are_uppercase_with_lowercase_prefix() {
    let table = FontToBytes::new("d".to_string(), strings(&["g.png"]), "font".to_string());
    let pixels = vec![255u8, 0, 255, 0, 255, 0, 255, 255];
    let image = DecodedImage::new(8, 1, pixels).unwrap();
    let out = table.run(&vec![image]).unwrap();
    assert!(out.contains("{0xAB},"));
}

#[test]
fn array_name_is_uppercased_only_in_macros() {
    let table = FontToBytes::new(
        "d".to_string(),
        strings(&["g.png"]),
        "my_font3".to_string(),
    );
    let out = table.run(&vec![img(8, 1, 0)]).unwrap();
    assert!(out.starts_with("#ifndef MY_FONT3_H_\n#define MY_FONT3_H_\n"));
    assert!(out.contains("static const unsigned char my_font3[MY_FONT3_IDX_CNT]"));
    assert!(out.ends_with("\n};\n\n#endif"));
}

#[test]
fn extension_test_matches_exactly() {
    assert!(is_png_file("a.png"));
    assert!(is_png_file("a.b.png"));
    assert!(!is_png_file(".png"));
    assert!(!is_png_file("png"));
    assert!(!is_png_file("a.PNG"));
    assert!(!is_png_file("a.png.bak"));
}

#[test]
fn filename_order_is_codepoint_wise() {
    assert!(str_le("a.png", "b.png"));
    assert!(!str_le("b.png", "a.png"));
    assert!(str_le("a.png", "a.png"));
    assert!(str_le("A.png", "a.png"));
    assert!(str_le("a.png", "ab.png"));
    assert!(!str_le("ab.png", "a.png"));
}

#[test]
fn image_with_wrong_sample_count_is_refused() {
    assert!(DecodedImage::new(8, 8, vec![0u8; 63]).is_none());
    assert!(DecodedImage::new(8, 8, vec![0u8; 64]).is_some());
}
