use reader_rs::layout::parse::{
    is_block_tag, is_inline_tag, parse_chapter, Block, InlineRun, ParsedChapter,
};

fn parse(xhtml: &str) -> ParsedChapter {
    parse_chapter(xhtml).expect("parse")
}

fn paragraph_text(block: &Block) -> Option<String> {
    match block {
        Block::Paragraph { runs, .. } => Some(runs.iter().map(|r| r.text.as_str()).collect()),
        Block::Image { .. } => None,
    }
}

fn paragraph_level(block: &Block) -> Option<usize> {
    match block {
        Block::Paragraph { indent_level, .. } => Some(*indent_level),
        Block::Image { .. } => None,
    }
}

#[test]
fn ul_emits_bullet_marked_paragraphs() {
    let parsed = parse(
        r#"<?xml version="1.0" encoding="UTF-8"?>
<html xmlns="http://www.w3.org/1999/xhtml"><body><ul><li>a</li><li>b</li></ul></body></html>"#,
    );
    let texts: Vec<String> = parsed.blocks.iter().filter_map(paragraph_text).collect();
    assert_eq!(texts, vec!["• a".to_owned(), "• b".to_owned()]);
}

#[test]
fn ol_emits_numbered_paragraphs() {
    let parsed = parse(
        r#"<?xml version="1.0" encoding="UTF-8"?>
<html xmlns="http://www.w3.org/1999/xhtml"><body><ol><li>a</li><li>b</li></ol></body></html>"#,
    );
    let texts: Vec<String> = parsed.blocks.iter().filter_map(paragraph_text).collect();
    assert_eq!(texts, vec!["1. a".to_owned(), "2. b".to_owned()]);
}

#[test]
fn nested_ul_indents_deeper() {
    let parsed = parse(
        r#"<?xml version="1.0" encoding="UTF-8"?>
<html xmlns="http://www.w3.org/1999/xhtml"><body><ul><li>a<ul><li>b</li></ul></li></ul></body></html>"#,
    );
    let texts: Vec<String> = parsed.blocks.iter().filter_map(paragraph_text).collect();
    let levels: Vec<usize> = parsed.blocks.iter().filter_map(paragraph_level).collect();
    assert_eq!(texts, vec!["• a".to_owned(), "• b".to_owned()]);
    assert!(levels[1] > levels[0], "expected nested item deeper; got {levels:?}");
    assert_eq!(levels[1] - levels[0], 1, "expected one level deeper; got {levels:?}");
}

#[test]
fn img_produces_image_block() {
    let parsed = parse(
        r#"<?xml version="1.0" encoding="UTF-8"?>
<html xmlns="http://www.w3.org/1999/xhtml"><body><p>before</p><img src="foo.png"/><p>after</p></body></html>"#,
    );
    let kinds: Vec<&str> = parsed
        .blocks
        .iter()
        .map(|b| match b {
            Block::Paragraph { .. } => "p",
            Block::Image { .. } => "img",
        })
        .collect();
    assert_eq!(kinds, vec!["p", "img", "p"]);
    match &parsed.blocks[1] {
        Block::Image { src } => assert_eq!(src, "foo.png"),
        other => panic!("expected image block, got {other:?}"),
    }
}

#[test]
fn emphasis_and_strong_mark_runs() {
    let parsed = parse(
        r#"<html><body><p>foo <em>bar <b>qux</b></em> baz<br/>end</p></body></html>"#,
    );
    assert_eq!(parsed.blocks.len(), 1);
    let runs: Vec<(String, bool, bool)> = match &parsed.blocks[0] {
        Block::Paragraph { runs, .. } => runs
            .iter()
            .map(|r: &InlineRun| (r.text.clone(), r.italic, r.bold))
            .collect(),
        other => panic!("expected paragraph, got {other:?}"),
    };
    assert_eq!(
        runs,
        vec![
            ("foo ".to_owned(), false, false),
            ("bar ".to_owned(), true, false),
            ("qux".to_owned(), true, true),
            (" baz".to_owned(), false, false),
            ("\n".to_owned(), false, false),
            ("end".to_owned(), false, false),
        ]
    );
}

#[test]
fn doctype_and_styles_are_collected() {
    let parsed = parse(
        r#"<?xml version="1.0" encoding="UTF-8"?>
<!DOCTYPE html>
<html xmlns="http://www.w3.org/1999/xhtml"><head><title>T</title><style>p { font-size: 32px; } .x { color: red }</style></head><body><p style="color: red">Doc.</p></body></html>"#,
    );
    assert_eq!(
        parsed.stylesheet.declarations_for("p"),
        vec![("font-size".to_owned(), "32px".to_owned())]
    );
    match &parsed.blocks[0] {
        Block::Paragraph { style, runs, .. } => {
            assert_eq!(style.len(), 1);
            assert_eq!(style[0].tag, "p");
            assert_eq!(style[0].inline_style.as_deref(), Some("color: red"));
            assert_eq!(runs[0].text, "Doc.");
        }
        other => panic!("expected paragraph, got {other:?}"),
    }
}

#[test]
fn unknown_elements_keep_their_text() {
    let parsed = parse(
        r#"<html xmlns="http://www.w3.org/1999/xhtml"><body><div><table>x</table></div> <script>no</script></body></html>"#,
    );
    let texts: Vec<String> = parsed.blocks.iter().filter_map(paragraph_text).collect();
    assert_eq!(texts, vec!["x".to_owned()]);
}

#[test]
fn empty_item_keeps_its_marker_and_nested_lists_follow() {
    let parsed = parse(
        r#"<html><body><ol><li></li><li><ul><li>in</li></ul></li></ol></body></html>"#,
    );
    let texts: Vec<String> = parsed.blocks.iter().filter_map(paragraph_text).collect();
    assert_eq!(texts, vec!["1. ".to_owned(), "• in".to_owned()]);
    let levels: Vec<usize> = parsed.blocks.iter().filter_map(paragraph_level).collect();
    assert_eq!(levels, vec![1, 2]);
}

#[test]
fn root_is_walked_without_body() {
    let parsed = parse(r#"<section><p>a</p>loose</section>"#);
    let texts: Vec<String> = parsed.blocks.iter().filter_map(paragraph_text).collect();
    assert_eq!(texts, vec!["a".to_owned(), "loose".to_owned()]);
}

#[test]
fn malformed_xml_is_an_error() {
    assert!(parse_chapter("<html><body><p>open").is_err());
}

#[test]
fn tag_kinds() {
    assert!(is_block_tag("blockquote"));
    assert!(is_block_tag("body"));
    assert!(!is_block_tag("div"));
    assert!(is_inline_tag("br"));
    assert!(!is_inline_tag("p"));
}
