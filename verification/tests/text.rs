use diary2::page::{convert_image_paths_in_text, ImageNameTransform};
use diary2::text::{escape, parse_date_str, parse_page, ParsePageError};

#[test]
fn test_escape() {
    assert_eq!("&lt;html&gt;", escape("<html>").to_string());
    assert_eq!(
        "これは&lt;html&gt;タグ",
        escape("これは<html>タグ").to_string()
    );
    assert_eq!("html", escape("html").to_string());
}

#[test]
fn escape_handles_all_five_metacharacters() {
    assert_eq!(escape("&"), "&amp;");
    assert_eq!(escape("'"), "&#39;");
    assert_eq!(escape("\""), "&quot;");
    assert_eq!(escape("a<b>&'\"c"), "a&lt;b&gt;&amp;&#39;&quot;c");
    assert_eq!(escape(""), "");
}

#[test]
fn test_convert_image_paths_in_text() {
    let text = "# Title\naa![abcd](/home/aa/image.png)ab![aa]()jfewa\nf![efgh](image2.jpeg)a";
    let expected = "# Title\naa![abcd](prefix-image.png)ab![aa]()jfewa\nf![efgh](prefix-image2.jpeg)a";

    let transform = ImageNameTransform::Prefix { prefix: "prefix-".to_string() };
    let (converted, images) = convert_image_paths_in_text(text, &transform);

    assert_eq!(expected, converted);
    assert_eq!(
        vec![
            ("image.png".to_string(), "prefix-image.png".to_string()),
            ("image2.jpeg".to_string(), "prefix-image2.jpeg".to_string()),
        ],
        images
    );
}

#[test]
fn convert_skips_references_without_file_name() {
    let transform = ImageNameTransform::Prefix { prefix: "p-".to_string() };
    let (converted, images) = convert_image_paths_in_text("a![x](..)b![y](dir/)c", &transform);
    assert_eq!(converted, "a![x](..)b![y](p-dir)c");
    assert_eq!(images, vec![("dir".to_string(), "p-dir".to_string())]);
}

#[test]
fn convert_ignores_references_broken_by_line_breaks() {
    let transform = ImageNameTransform::Prefix { prefix: "p-".to_string() };
    let (converted, images) = convert_image_paths_in_text("![alt](a\nb.png)", &transform);
    assert_eq!(converted, "![alt](a\nb.png)");
    assert!(images.is_empty());
}

#[test]
fn parse_page_splits_title_and_body() {
    let text = "My day\n\nIt went well. ![pic](/tmp/cat.png)\n";
    let out = parse_page(text, "2024-03-06_10-00-00-000000000_").expect("parses");
    assert_eq!(out.0, "My day");
    assert_eq!(out.1, "It went well. ![pic](2024-03-06_10-00-00-000000000_cat.png)");
    assert_eq!(
        out.2,
        vec![("cat.png".to_string(), "2024-03-06_10-00-00-000000000_cat.png".to_string())]
    );
}

#[test]
fn parse_page_keeps_already_prefixed_names() {
    let text = "T\np![a](P_img.png)q";
    let out = parse_page(text, "P_").expect("parses");
    assert_eq!(out.1, "p![a](P_img.png)q");
    assert_eq!(out.2, vec![("P_img.png".to_string(), "P_img.png".to_string())]);
}

#[test]
fn parse_page_rejects_blank_text() {
    assert_eq!(parse_page("  \n \n", "P_"), Err(ParsePageError::Cancelled));
    assert_eq!(parse_page("", "P_"), Err(ParsePageError::Cancelled));
}

#[test]
fn parse_page_rejects_blank_title() {
    assert_eq!(parse_page("   \nbody", "P_"), Err(ParsePageError::EmptyTitle));
}

#[test]
fn parse_date_str_fills_defaults() {
    assert_eq!(parse_date_str("5", 2024, 3), Some((2024, 3, 5)));
    assert_eq!(parse_date_str(" 3/14 ", 2024, 6), Some((2024, 3, 14)));
    assert_eq!(parse_date_str("2021-7-9", 2024, 6), Some((2021, 7, 9)));
    assert_eq!(parse_date_str("2021/7/9", 2024, 6), Some((2021, 7, 9)));
    assert_eq!(parse_date_str("+8", 2024, 6), Some((2024, 6, 8)));
}

#[test]
fn parse_date_str_rejects_bad_input() {
    assert_eq!(parse_date_str("", 2024, 3), None);
    assert_eq!(parse_date_str("   ", 2024, 3), None);
    assert_eq!(parse_date_str("abc", 2024, 3), None);
    assert_eq!(parse_date_str("1/2/3/4", 2024, 3), None);
    assert_eq!(parse_date_str("3//4", 2024, 3), None);
    assert_eq!(parse_date_str("4294967296", 2024, 3), None);
    assert_eq!(parse_date_str("4294967295", 2024, 3), Some((2024, 3, 4294967295)));
}
