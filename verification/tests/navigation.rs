use reader_rs::navigation::{map_key, ChapterStatus, NamedKey, NavCommand, Reader};

fn opened(spine_len: usize, saved: Option<(usize, usize)>) -> (Reader, Vec<usize>) {
    Reader::open(spine_len, saved).expect("book has chapters")
}

fn at(r: &Reader) -> (usize, usize) {
    (r.current_chapter(), r.current_page_in_chapter())
}

#[test]
fn opening_asks_for_first_and_resumed_chapter() {
    assert!(Reader::open(0, None).is_none());
    let (r, reqs) = opened(5, Some((3, 7)));
    assert_eq!(reqs, vec![0, 3]);
    assert_eq!(at(&r), (3, 7));
    let (r2, reqs2) = opened(5, Some((9, 1)));
    assert_eq!(reqs2, vec![0]);
    assert_eq!(at(&r2), (0, 0));
    assert!(matches!(r2.status(0), Some(ChapterStatus::Pending)));
    assert!(matches!(r2.status(1), Some(ChapterStatus::NotRequested)));
    assert!(r2.status(5).is_none());
}

#[test]
fn answers_skip_empty_chapters_and_prefetch() {
    let (mut r, _) = opened(4, None);
    let reqs = r.drain(&[(0, Some(0))]);
    assert_eq!(at(&r), (1, 0));
    assert_eq!(reqs, vec![1, 2]);
    let again = r.drain(&[]);
    assert!(again.is_empty());
    let reqs = r.drain(&[(1, Some(3)), (2, None)]);
    assert_eq!(at(&r), (1, 0));
    assert!(reqs.is_empty());
}

#[test]
fn pages_turn_across_chapters_and_back() {
    let (mut r, _) = opened(4, None);
    r.drain(&[(0, Some(2)), (1, Some(0)), (2, None), (3, Some(5))]);
    assert_eq!(at(&r), (0, 0));
    let (_, moved) = r.handle_nav(NavCommand::NextPage);
    assert!(moved);
    assert_eq!(at(&r), (0, 1));
    r.handle_nav(NavCommand::NextPage);
    assert_eq!(at(&r), (3, 0));
    r.handle_nav(NavCommand::PrevPage);
    assert_eq!(at(&r), (0, 1));
    r.handle_nav(NavCommand::LastPage);
    assert_eq!(at(&r), (0, 1));
    r.handle_nav(NavCommand::FirstPage);
    assert_eq!(at(&r), (0, 0));
    let (_, moved) = r.handle_nav(NavCommand::PrevPage);
    assert!(!moved);
}

#[test]
fn forward_into_unknown_chapter_asks_for_it() {
    let (mut r, _) = opened(3, None);
    r.drain(&[(0, Some(1))]);
    let (reqs, moved) = r.handle_nav(NavCommand::NextPage);
    assert!(moved);
    assert_eq!(at(&r), (1, 0));
    assert!(reqs.is_empty(), "chapter 1 was already prefetched");
    let (reqs, _) = r.handle_nav(NavCommand::NextChapter);
    assert_eq!(at(&r), (2, 0));
    assert_eq!(reqs, vec![2]);
    let (reqs, moved) = r.handle_nav(NavCommand::NextChapter);
    assert!(reqs.is_empty());
    assert!(!moved);
    r.handle_nav(NavCommand::PrevChapter);
    assert_eq!(at(&r), (1, 0));
}

#[test]
fn progress_needs_every_chapter() {
    let (mut r, _) = opened(3, None);
    r.drain(&[(0, Some(4)), (1, Some(6))]);
    assert!(r.progress_fits());
    assert_eq!(r.global_page_progress(), (None, None));
    r.drain(&[(2, Some(5))]);
    r.handle_nav(NavCommand::NextChapter);
    r.handle_nav(NavCommand::NextPage);
    assert_eq!(at(&r), (1, 1));
    assert_eq!(r.global_page_progress(), (Some(5), Some(15)));
}

#[test]
fn failed_request_is_recorded() {
    let (mut r, _) = opened(2, None);
    r.mark_failed(0);
    assert!(matches!(r.status(0), Some(ChapterStatus::Failed)));
    assert_eq!(r.next_chapter_to_prefetch(), Some(1));
}

#[test]
fn keys_map_to_commands() {
    assert!(matches!(map_key(NamedKey::ArrowRight, false), Some(NavCommand::NextPage)));
    assert!(matches!(map_key(NamedKey::ArrowRight, true), Some(NavCommand::NextChapter)));
    assert!(matches!(map_key(NamedKey::ArrowLeft, true), Some(NavCommand::PrevChapter)));
    assert!(matches!(map_key(NamedKey::Space, false), Some(NavCommand::NextPage)));
    assert!(matches!(map_key(NamedKey::PageUp, false), Some(NavCommand::PrevPage)));
    assert!(matches!(map_key(NamedKey::End, true), Some(NavCommand::LastPage)));
    assert!(map_key(NamedKey::Other, false).is_none());
}
