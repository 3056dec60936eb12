//! An EPUB reader's library: book-format model, CSS subset, archive paths,
//! recents persistence, page navigation and page compositing.

pub mod error;
pub mod format;
pub mod text;
pub mod layout;
pub mod persistence;
pub mod navigation;
pub mod recents;
pub mod render;
