use openmoonvy_mcp_rs::genome::{token_numbers, token_texts};
use openmoonvy_mcp_rs::genome::{style_to_weight, truncate_text, weight_of_lowercase, StyleCodeFormat, TextContent};
use openmoonvy_mcp_rs::ids::ids_equal;

#[test]
fn ids_equal_exact_and_compound() {
    assert!(ids_equal(Some("4:1221"), Some("4:1221")));
    assert!(ids_equal(Some("I4:1222;4:1005;4:69"), Some("4:69")));
    assert!(ids_equal(Some("I4:1222;4:1005;4:69"), Some("4:1005")));
    assert!(!ids_equal(Some("1:1"), Some("1:1x")));
    assert!(!ids_equal(Some("1:1"), Some("1:11")));
    assert!(ids_equal(Some("1:1"), Some("1:1;2:3")));
    assert!(!ids_equal(None, Some("1:1")));
    assert!(!ids_equal(Some(""), Some("")));
}

#[test]
fn ids_equal_trims_and_is_symmetric() {
    assert!(ids_equal(Some("  4:1 "), Some("4:1")));
    assert!(ids_equal(Some("4:69"), Some("I4:1222;4:1005;4:69")));
    assert!(!ids_equal(Some("4:1"), None));
}

#[test]
fn style_code_format_parse() {
    assert_eq!(StyleCodeFormat::parse(Some("css")), Some(StyleCodeFormat::Css));
    assert_eq!(StyleCodeFormat::parse(Some("tailwind")), Some(StyleCodeFormat::Tailwind));
    assert_eq!(StyleCodeFormat::parse(Some("tw")), Some(StyleCodeFormat::Tailwind));
    assert_eq!(StyleCodeFormat::parse(None), Some(StyleCodeFormat::Css));
    assert_eq!(StyleCodeFormat::parse(Some("nope")), None);
}

#[test]
fn style_to_weight_labels() {
    assert_eq!(style_to_weight(Some("Semibold")).map(f64::from), Some(600.0));
    assert_eq!(style_to_weight(Some("Bold")).map(f64::from), Some(700.0));
    assert_eq!(style_to_weight(Some("PingFangSC-Regular")).map(f64::from), Some(400.0));
    assert_eq!(style_to_weight(Some("Medium")).map(f64::from), Some(500.0));
    assert_eq!(style_to_weight(Some("Unknown")).map(f64::from), None);
    assert_eq!(style_to_weight(None).map(f64::from), None);
}

#[test]
fn text_truncation_keeps_forty_chars_and_ellipsis() {
    let long: String = std::iter::repeat('a').take(41).collect();
    let t = truncate_text(&long);
    assert_eq!(t.chars().count(), 41);
    assert!(t.ends_with('…'));
    assert_eq!(truncate_text("short"), "short");
    let forty: String = std::iter::repeat('好').take(40).collect();
    assert_eq!(truncate_text(&forty), forty);
}

#[test]
fn text_content_names() {
    assert_eq!(TextContent::from_name("truncate"), Some(TextContent::Truncate));
    assert_eq!(TextContent::from_name("full"), Some(TextContent::Full));
    assert_eq!(TextContent::from_name("none"), Some(TextContent::NoText));
    assert_eq!(TextContent::from_name("other"), None);
}

#[test]
fn lowercase_names_select_formats_modes_and_weights() {
    assert_eq!(StyleCodeFormat::from_lowercase("tw"), Some(StyleCodeFormat::Tailwind));
    assert_eq!(StyleCodeFormat::from_lowercase("css"), Some(StyleCodeFormat::Css));
    assert_eq!(StyleCodeFormat::from_lowercase("CSS"), None, "the name is taken as already lowercased");
    assert_eq!(TextContent::from_lowercase("full"), Some(TextContent::Full));
    assert_eq!(TextContent::from_lowercase("none"), Some(TextContent::NoText));
    assert_eq!(TextContent::from_lowercase("Full"), None);
    assert_eq!(weight_of_lowercase("extra light"), Some(300));
    assert_eq!(weight_of_lowercase("semibold"), Some(600));
    assert_eq!(weight_of_lowercase("Bold"), None);
}

#[test]
fn tokens_sorted_and_deduplicated() {
    assert_eq!(token_numbers(&vec![8, -4, 0, 8, 2, 16], false), vec![-4, 0, 2, 8, 16]);
    assert_eq!(token_numbers(&vec![8, -4, 0, 8, 2, 16], true), vec![2, 8, 16], "spacing keeps positive values");
    let colors = vec!["#fff".to_string(), "#000".to_string(), "#fff".to_string(), "#0a0".to_string(), "#00".to_string()];
    assert_eq!(token_texts(&colors), vec!["#00", "#000", "#0a0", "#fff"]);
    assert!(token_texts(&Vec::new()).is_empty());
}
