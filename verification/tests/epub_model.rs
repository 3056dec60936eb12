use reader_rs::error::Error;
use reader_rs::format::epub::{
    archive_paths_equal, build_spine, chapter_from_resource, collect_toc_titles, extract_metadata, EpubIndex,
    MetadataItem, NavPoint, PackageDocument, ResourceEntry,
};

fn item(property: &str, value: &str) -> MetadataItem {
    MetadataItem {
        property: property.to_owned(),
        value: value.to_owned(),
    }
}

fn nav(label: &str, content: &str, children: Vec<NavPoint>) -> NavPoint {
    NavPoint {
        label: label.to_owned(),
        content: content.to_owned(),
        children,
    }
}

fn res(id: &str, path: &str) -> ResourceEntry {
    ResourceEntry {
        id: id.to_owned(),
        path: path.to_owned(),
    }
}

fn fixture_package() -> PackageDocument {
    PackageDocument {
        metadata: vec![
            item("title", "Reader-RS Fixture"),
            item("creator", "Test Author"),
            item("language", "en"),
            item("title", "Second Title"),
            item("identifier", "urn:uuid:1234"),
        ],
        unique_identifier: None,
        spine: vec!["ch01".to_owned(), "ch02".to_owned(), "ch03".to_owned()],
        resources: vec![
            res("ch01", "OEBPS/ch01.xhtml"),
            res("ch02", "OEBPS/ch02.xhtml"),
            res("ch03", "OEBPS/ch03.xhtml"),
        ],
        toc: vec![
            nav("One", "OEBPS/ch01.xhtml", vec![nav("Two", "OEBPS//ch02.xhtml", vec![])]),
        ],
    }
}

#[test]
fn opens_and_reads_metadata() {
    let meta = extract_metadata(&fixture_package());
    assert_eq!(meta.title, "Reader-RS Fixture");
    assert_eq!(meta.authors, vec!["Test Author".to_owned()]);
    assert_eq!(meta.language.as_deref(), Some("en"));
    assert!(meta.identifier.is_some());
}

#[test]
fn unique_identifier_wins_over_identifier_items() {
    let mut pkg = fixture_package();
    pkg.unique_identifier = Some("isbn:9".to_owned());
    assert_eq!(extract_metadata(&pkg).identifier.as_deref(), Some("isbn:9"));
    assert_eq!(
        extract_metadata(&fixture_package()).identifier.as_deref(),
        Some("urn:uuid:1234")
    );
    assert_eq!(extract_metadata(&fixture_package()).publisher, None);
}

#[test]
fn toc_flattens_parents_before_children() {
    let flat = collect_toc_titles(&fixture_package().toc);
    assert_eq!(
        flat,
        vec![
            ("OEBPS/ch01.xhtml".to_owned(), "One".to_owned()),
            ("OEBPS//ch02.xhtml".to_owned(), "Two".to_owned()),
        ]
    );
}

#[test]
fn spine_has_three_chapters_with_titles() {
    let spine = build_spine(&fixture_package(), std::path::MAIN_SEPARATOR);
    assert_eq!(spine.len(), 3);
    assert_eq!(spine[0].id, "ch01");
    assert_eq!(spine[1].id, "ch02");
    assert_eq!(spine[2].id, "ch03");
    assert_eq!(spine[0].title.as_deref(), Some("One"));
    assert_eq!(spine[1].title.as_deref(), Some("Two"));
    assert_eq!(spine[2].title, None);
}

#[test]
fn out_of_range_chapter_returns_invalid_chapter() {
    let index = EpubIndex::from_package(fixture_package());
    match index.chapter_path(99) {
        Err(Error::InvalidChapter { index, len }) => {
            assert_eq!(index, 99);
            assert_eq!(len, 3);
        }
        other => panic!("expected InvalidChapter, got {other:?}"),
    }
    assert_eq!(index.chapter_path(2).expect("ch03"), "OEBPS/ch03.xhtml");
}

#[test]
fn spine_entry_without_manifest_item_is_missing() {
    let mut pkg = fixture_package();
    pkg.spine.push("ghost".to_owned());
    let index = EpubIndex::from_package(pkg);
    match index.chapter_path(3) {
        Err(Error::MissingResource { path }) => assert_eq!(path, "ghost"),
        other => panic!("expected MissingResource, got {other:?}"),
    }
}

#[test]
fn missing_resource_is_typed() {
    match chapter_from_resource(0, "does-not-exist.png".to_owned(), None) {
        Err(Error::MissingResource { path }) => {
            assert_eq!(path, "does-not-exist.png");
        }
        other => panic!("expected MissingResource, got {other:?}"),
    }
}

#[test]
fn cjk_chapter_decodes_as_utf8() {
    let bytes = "<html><body><p>中文测试</p></body></html>".as_bytes().to_vec();
    let ch = chapter_from_resource(2, "OEBPS/ch03.xhtml".to_owned(), Some(bytes)).expect("ch03");
    assert!(ch.xhtml.contains("中文测试"));
    assert_eq!(ch.base_path, "OEBPS/ch03.xhtml");
    match chapter_from_resource(4, "x".to_owned(), Some(vec![0xff, 0xfe])) {
        Err(Error::InvalidUtf8 { index }) => assert_eq!(index, 4),
        other => panic!("expected InvalidUtf8, got {other:?}"),
    }
}

#[test]
fn archive_paths_compare_by_component() {
    assert!(archive_paths_equal("OEBPS\\text\\c1.xhtml", "OEBPS/text/c1.xhtml", '\\'));
    assert!(!archive_paths_equal("OEBPS\\text\\c1.xhtml", "OEBPS/text/c1.xhtml", '/'));
    assert!(archive_paths_equal("a/./b/", "a//b", '/'));
    assert!(!archive_paths_equal("./a", "a", '/'));
    assert!(archive_paths_equal("./a", ".//a/.", '/'));
    assert!(!archive_paths_equal("/a", "a", '/'));
    assert!(!archive_paths_equal("a/../b", "b", '/'));
    assert!(!archive_paths_equal("", ".", '/'));
}

#[test]
fn index_remembers_the_separator_it_matched_with() {
    let index = EpubIndex::from_package(fixture_package());
    assert_eq!(index.separator, std::path::MAIN_SEPARATOR);
    assert_eq!(index.spine[1].title.as_deref(), Some("Two"));
}
