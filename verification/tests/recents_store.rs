use std::path::PathBuf;

use reader_rs::error::Error;
use reader_rs::format::{BookSource, ChapterContent, ChapterRef, Metadata};
use reader_rs::persistence::{
    cover_filename, key_for, thumbnail_from_parts, CoverSidecar, RecentEntry, RecentsFile,
    RecentsStore, MAX_KEY_FILENAME, MAX_RECENTS, SCHEMA_VERSION,
};
use reader_rs::recents::{decimal_string, format_relative, format_relative_at};

struct FakeBook {
    metadata: Metadata,
}

impl FakeBook {
    fn new(identifier: Option<&str>, title: &str) -> Self {
        Self {
            metadata: Metadata {
                title: title.to_owned(),
                authors: vec!["Anon".to_owned()],
                language: None,
                identifier: identifier.map(str::to_owned),
                publisher: None,
            },
        }
    }
}

impl BookSource for FakeBook {
    fn metadata(&self) -> &Metadata {
        &self.metadata
    }
    fn spine(&self) -> &[ChapterRef] {
        &[]
    }
    fn chapter(&mut self, index: usize) -> Result<ChapterContent, Error> {
        Err(Error::InvalidChapter { index, len: 0 })
    }
    fn cover(&mut self) -> Result<Option<Vec<u8>>, Error> {
        Ok(None)
    }
    fn resource(&mut self, path: &str) -> Result<Vec<u8>, Error> {
        Err(Error::MissingResource { path: path.to_owned() })
    }
}

fn entry(key: &str, last_read_at: u64) -> RecentEntry {
    RecentEntry {
        key: key.to_owned(),
        path: PathBuf::from(format!("/tmp/{key}.epub")),
        title: None,
        author: None,
        current_chapter: 0,
        current_page_in_chapter: 0,
        total_pages: None,
        global_page: None,
        last_read_at,
    }
}

fn store_with(entries: Vec<RecentEntry>) -> RecentsStore {
    RecentsStore::load_from(
        PathBuf::from("/tmp/recents-test"),
        Some(RecentsFile {
            version: SCHEMA_VERSION,
            entries,
        }),
    )
}

#[test]
fn cover_filename_sanitises_separators() {
    let f = cover_filename("urn:uuid:abc/def\\xyz", "bin");
    assert!(!f.contains('/'));
    assert!(!f.contains('\\'));
    assert!(!f.contains(':'));
    assert!(f.ends_with(".bin"));
}

#[test]
fn cover_filename_truncates_long_keys() {
    let huge = "x".repeat(1000);
    let f = cover_filename(&huge, "json");
    assert!(f.len() <= MAX_KEY_FILENAME + ".json".len());
}

#[test]
fn cover_filename_cuts_on_a_character_boundary() {
    let key = "é".repeat(150);
    let f = cover_filename(&key, "bin");
    assert_eq!(f, format!("{}.bin", "é".repeat(100)));
    assert_eq!(cover_filename("a\u{7}b|c", "json"), "a_b_c.json");
}

#[test]
fn recents_cap_drops_oldest() {
    let mut entries = Vec::new();
    for i in 0..MAX_RECENTS {
        entries.push(entry(&format!("k{i}"), i as u64 + 1));
    }
    let mut store = store_with(entries);
    let book = FakeBook::new(Some("k_new"), "New");
    let dropped = store.record_open(&book, PathBuf::from("/tmp/k_new.epub"), "/tmp/k_new.epub");
    assert_eq!(store.len(), MAX_RECENTS);
    assert!(store.get("k0").is_none(), "oldest entry should be evicted");
    assert!(store.get("k_new").is_some());
    assert_eq!(dropped.len(), 1);
    assert_eq!(dropped[0].key, "k0");
}

#[test]
fn update_progress_persists() {
    let mut store = store_with(Vec::new());
    let book = FakeBook::new(Some("prog"), "P");
    store.record_open(&book, PathBuf::from("/tmp/p.epub"), "/tmp/p.epub");
    assert!(store.update_progress("prog", 3, 12, Some(42), Some(100)));
    let entry = store.get("prog").expect("entry");
    assert_eq!(entry.current_chapter, 3);
    assert_eq!(entry.current_page_in_chapter, 12);
    assert_eq!(entry.global_page, Some(42));
    assert_eq!(entry.total_pages, Some(100));
}

#[test]
fn schema_version_bump_yields_empty_store_without_panic() {
    let store = RecentsStore::load_from(
        PathBuf::from("/tmp/recents-test"),
        Some(RecentsFile {
            version: 99,
            entries: vec![entry("a", 1)],
        }),
    );
    assert!(store.is_empty(), "future-schema must yield empty store");
}

#[test]
fn corrupt_json_yields_empty_store_without_panic() {
    let store = RecentsStore::load_from(PathBuf::from("/tmp/recents-test"), None);
    assert!(store.is_empty());
    assert_eq!(store.file().version, SCHEMA_VERSION);
}

#[test]
fn fallback_key_uses_path_when_identifier_missing() {
    let book = FakeBook::new(None, "NoId");
    let key = RecentsStore::book_key(&book, "/tmp/some/dir/noid.epub");
    assert!(key.contains("noid.epub"), "key should include filename");

    let mut store = store_with(Vec::new());
    store.record_open(&book, PathBuf::from("/tmp/some/dir/noid.epub"), "/tmp/some/dir/noid.epub");
    assert_eq!(store.len(), 1);
}

#[test]
fn blank_identifier_falls_back_and_identifier_is_trimmed() {
    let blank = FakeBook::new(Some("   "), "B");
    assert_eq!(key_for(&blank.metadata, "/p.epub"), "/p.epub");
    let padded = FakeBook::new(Some("  urn:x \n"), "B");
    assert_eq!(RecentsStore::book_key(&padded, "/p.epub"), "urn:x");
}

#[test]
fn record_open_fills_title_and_author() {
    let mut store = store_with(Vec::new());
    let mut book = FakeBook::new(Some("urn:uuid:abc"), "Hello");
    book.metadata.authors = vec!["Ann".to_owned(), "Bob".to_owned()];
    store.record_open_at(
        "urn:uuid:abc".to_owned(),
        PathBuf::from("/tmp/hello.epub"),
        &book.metadata,
        50,
    );
    let e = store.get("urn:uuid:abc").expect("entry present");
    assert_eq!(e.title.as_deref(), Some("Hello"));
    assert_eq!(e.author.as_deref(), Some("Ann, Bob"));
    assert_eq!(e.last_read_at, 50);

    let untitled = Metadata {
        title: String::new(),
        authors: Vec::new(),
        language: None,
        identifier: None,
        publisher: None,
    };
    store.record_open_at("u".to_owned(), PathBuf::from("/tmp/u.epub"), &untitled, 51);
    let u = store.get("u").expect("u");
    assert_eq!(u.title, None);
    assert_eq!(u.author, None);
}

#[test]
fn reopening_keeps_position_and_refreshes_time() {
    let mut store = store_with(vec![entry("a", 5), entry("b", 6)]);
    store.update_progress_at("a", 4, 7, None, Some(90), 10);
    let meta = FakeBook::new(Some("a"), "A").metadata;
    store.record_open_at("a".to_owned(), PathBuf::from("/new/a.epub"), &meta, 20);
    assert_eq!(store.len(), 2);
    let a = store.get("a").expect("a");
    assert_eq!((a.current_chapter, a.current_page_in_chapter), (4, 7));
    assert_eq!(a.total_pages, Some(90));
    assert_eq!(a.last_read_at, 20);
    assert_eq!(a.path, PathBuf::from("/new/a.epub"));
}

#[test]
fn unknown_key_progress_changes_nothing() {
    let mut store = store_with(vec![entry("a", 5)]);
    assert!(!store.update_progress("zzz", 1, 1, Some(1), Some(1)));
    let a = store.get("a").expect("a");
    assert_eq!((a.current_chapter, a.last_read_at), (0, 5));
}

#[test]
fn ordered_is_most_recent_first_and_stable() {
    let store = store_with(vec![entry("a", 3), entry("b", 9), entry("c", 3), entry("d", 5)]);
    let keys: Vec<&str> = store.ordered().iter().map(|e| e.key.as_str()).collect();
    assert_eq!(keys, vec!["b", "d", "a", "c"]);
}

#[test]
fn eviction_drops_first_of_equal_oldest() {
    let mut entries = Vec::new();
    for i in 0..MAX_RECENTS {
        entries.push(entry(&format!("e{i}"), 7));
    }
    let mut store = store_with(entries);
    let meta = FakeBook::new(Some("fresh"), "F").metadata;
    let dropped = store.record_open_at("fresh".to_owned(), PathBuf::from("/f"), &meta, 8);
    assert_eq!(dropped.len(), 1);
    assert_eq!(dropped[0].key, "e0");
    assert!(store.get("fresh").is_some());
}

#[test]
fn cover_paths_live_under_covers() {
    let store = store_with(Vec::new());
    assert_eq!(
        store.cover_thumbnail_path("urn:a/b"),
        PathBuf::from("/tmp/recents-test/covers/urn_a_b.bin")
    );
    assert_eq!(
        store.cover_sidecar_path("k"),
        PathBuf::from("/tmp/recents-test/covers/k.json")
    );
    assert_eq!(store.recents_path(), PathBuf::from("/tmp/recents-test/recents.json"));
}

#[test]
fn thumbnail_needs_matching_size() {
    let side = CoverSidecar { width: 2, height: 3 };
    assert_eq!(
        thumbnail_from_parts(side, vec![0; 24]),
        Some((2, 3, vec![0; 24]))
    );
    assert_eq!(thumbnail_from_parts(side, vec![0; 23]), None);
    assert!(CoverSidecar { width: u32::MAX, height: u32::MAX }.fits(0) == false);
}

#[test]
fn relative_times() {
    assert_eq!(format_relative_at(0, 100), "\u{2014}");
    assert_eq!(format_relative_at(200, 100), "\u{2014}");
    assert_eq!(format_relative_at(100, 159), "just now");
    assert_eq!(format_relative_at(100, 160), "1m ago");
    assert_eq!(format_relative_at(100, 100 + 3599), "59m ago");
    assert_eq!(format_relative_at(100, 100 + 7200), "2h ago");
    assert_eq!(format_relative_at(100, 100 + 86_400 * 3), "3d ago");
    assert_eq!(format_relative_at(100, 100 + 86_400 * 30), "long ago");
    assert_eq!(format_relative(0), "\u{2014}");
}

#[test]
fn decimal_strings() {
    assert_eq!(decimal_string(0), "0");
    assert_eq!(decimal_string(7), "7");
    assert_eq!(decimal_string(1203), "1203");
    assert_eq!(decimal_string(u64::MAX), u64::MAX.to_string());
}

#[test]
fn open_tied_with_a_full_list_is_kept() {
    let mut entries = Vec::new();
    for i in 0..MAX_RECENTS {
        entries.push(entry(&format!("t{i}"), 7));
    }
    let mut store = store_with(entries);
    let meta = FakeBook::new(Some("tie"), "T").metadata;
    let dropped = store.record_open_at("tie".to_owned(), PathBuf::from("/t"), &meta, 7);
    assert_eq!(dropped.len(), 1);
    assert_eq!(dropped[0].key, "t0");
    assert_eq!(store.len(), MAX_RECENTS);
    assert_eq!(store.get("tie").map(|e| e.last_read_at), Some(7));
}
