use reader_rs::layout::style::{
    classify_declaration, element_weight, first_family, is_type_selector, iter_decls, length_unit, parse_color,
    parse_hex, parse_weight, split_number, strip_comments, LengthUnit, StyleDecl, Stylesheet,
    TextAlign,
};

#[test]
fn parse_hex_short() {
    assert_eq!(parse_color("#abc"), Some((0xaa, 0xbb, 0xcc)));
}

#[test]
fn parse_hex_long() {
    assert_eq!(parse_color("#102030"), Some((0x10, 0x20, 0x30)));
}

#[test]
fn parse_named_color() {
    assert_eq!(parse_color("BLACK"), Some((0, 0, 0)));
}

#[test]
fn parse_weight_keywords() {
    assert_eq!(parse_weight("bold"), Some(700));
    assert_eq!(parse_weight("normal"), Some(400));
    assert_eq!(parse_weight("600"), Some(600));
}

#[test]
fn first_family_strips_quotes() {
    assert_eq!(
        first_family("\"Liberation Sans\", sans-serif"),
        Some("Liberation Sans".to_owned())
    );
}

#[test]
fn type_selector_check() {
    assert!(is_type_selector("p"));
    assert!(is_type_selector("h1"));
    assert!(!is_type_selector(".foo"));
    assert!(!is_type_selector("#bar"));
    assert!(!is_type_selector("p > a"));
}

#[test]
fn iter_decls_basic() {
    let v = iter_decls("color: red; font-size: 12px");
    assert_eq!(
        v,
        vec![
            ("color".to_owned(), "red".to_owned()),
            ("font-size".to_owned(), "12px".to_owned()),
        ]
    );
}

#[test]
fn comments_are_stripped() {
    assert_eq!(strip_comments("a/* x */b/* open"), "ab");
    assert_eq!(strip_comments("plain"), "plain");
}

#[test]
fn decls_skip_empty_and_lowercase_properties() {
    let v = iter_decls(" ; COLOR : Red ;no-colon; :x; font-weight:");
    assert_eq!(v, vec![("color".to_owned(), "Red".to_owned())]);
}

#[test]
fn numbers_split_from_units() {
    assert_eq!(
        split_number("-1.5em"),
        Some(("-1.5".to_owned(), "em".to_owned()))
    );
    assert_eq!(split_number("px"), None);
    assert_eq!(length_unit("PT"), Some(LengthUnit::Pt));
    assert_eq!(length_unit("vw"), None);
}

#[test]
fn weights_out_of_range_are_rejected() {
    assert_eq!(parse_weight("70000"), None);
    assert_eq!(parse_weight("heavy"), None);
    assert_eq!(parse_weight(" 1001 "), Some(1001));
    assert_eq!(parse_weight("BOLDER"), Some(700));
    assert_eq!(parse_weight("lighter"), Some(300));
}

#[test]
fn hex_rejects_bad_digits() {
    assert_eq!(parse_hex("abz"), None);
    assert_eq!(parse_hex("12345"), None);
    assert_eq!(parse_color("rebeccapurple"), None);
    assert_eq!(parse_color("White"), Some((0xff, 0xff, 0xff)));
}

#[test]
fn non_ascii_hex_is_ignored() {
    assert_eq!(parse_hex("é1"), None);
    assert_eq!(parse_color("#é1"), None);
    assert_eq!(parse_color("#a€ab"), None);
    assert!(matches!(classify_declaration("color", "#a€ab"), StyleDecl::Ignored));
}

#[test]
fn stylesheet_keeps_type_rules_only() {
    let mut sh = Stylesheet::new();
    sh.add_source("p { font-size: 24px; } .foo { color: red; } H1, em { color: blue }");
    assert_eq!(
        sh.declarations_for("p"),
        vec![("font-size".to_owned(), "24px".to_owned())]
    );
    assert_eq!(
        sh.declarations_for("h1"),
        vec![("color".to_owned(), "blue".to_owned())]
    );
    assert!(sh.declarations_for("foo").is_empty());
}

#[test]
fn declarations_are_classified() {
    assert!(matches!(
        classify_declaration("font-weight", " bold ;"),
        StyleDecl::FontWeight(700)
    ));
    assert!(matches!(
        classify_declaration("text-align", "CENTER"),
        StyleDecl::TextAlign(TextAlign::Center)
    ));
    assert!(matches!(
        classify_declaration("font-style", "oblique"),
        StyleDecl::FontStyle(true)
    ));
    assert!(matches!(
        classify_declaration("border", "1px"),
        StyleDecl::Ignored
    ));
}

#[test]
fn headings_are_bold_and_others_inherit() {
    for tag in ["h1", "h2", "h3", "h4", "h5", "h6"] {
        assert_eq!(element_weight(tag, 400), 700);
    }
    assert_eq!(element_weight("p", 300), 300);
    assert_eq!(element_weight("h7", 400), 400);
    assert_eq!(element_weight("h", 500), 500);
}
