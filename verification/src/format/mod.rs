//! Book formats: the [`BookSource`] trait and the values it serves.
//!
//! The layout engine and the recents store only ever see a book through
//! this trait, so further formats can be added behind it.

pub mod epub;

use vstd::prelude::*;

use crate::error::Error;

verus! {

/// Read access to a book's metadata, spine and resources.
pub trait BookSource: Send + Sync {
    /// Whether this implementation keeps the promises stated of
    /// [`BookSource::metadata`] and [`BookSource::resource`] in terms of
    /// [`BookSource::metadata_view`] and [`BookSource::resource_at`]. An
    /// implementation opts in by defining all three; one that does not
    /// (every implementation outside verified code) promises nothing.
    open spec fn obeys_book_spec(&self) -> bool {
        false
    }

    /// The book's metadata, as [`BookSource::metadata`] serves it; left
    /// unknown unless the implementation defines it.
    open spec fn metadata_view(&self) -> Metadata {
        arbitrary()
    }

    /// The bytes the book holds at the archive path `path`, if any, as
    /// [`BookSource::resource`] serves them; left unknown unless the
    /// implementation defines it.
    open spec fn resource_at(&self, path: Seq<char>) -> Option<Seq<u8>> {
        arbitrary()
    }

    /// Bibliographic metadata from the book's package document.
    fn metadata(&self) -> (r: &Metadata)
        ensures
            self.obeys_book_spec() ==> *r == self.metadata_view(),
    ;

    /// The reading order, in spine order.
    fn spine(&self) -> &[ChapterRef];

    /// The XHTML of the chapter at spine `index`: [`Error::InvalidChapter`]
    /// when `index` is out of range, [`Error::InvalidUtf8`] when the bytes
    /// are not UTF-8, [`Error::MissingResource`] when the spine entry points
    /// at nothing in the archive.
    fn chapter(&mut self, index: usize) -> Result<ChapterContent, Error>;

    /// The cover image bytes, when a cover is declared and present.
    fn cover(&mut self) -> Result<Option<Vec<u8>>, Error>;

    /// The bytes of a resource referenced from chapter XHTML, or
    /// [`Error::MissingResource`].
    fn resource(&mut self, path: &str) -> (r: Result<Vec<u8>, Error>)
        ensures
            old(self).obeys_book_spec() ==> (r is Ok ==> Some(r->Ok_0@) == old(self).resource_at(
                path@,
            )),
    ;
}

/// Bibliographic metadata of a book.
#[derive(Debug)]
pub struct Metadata {
    /// The primary title.
    pub title: String,
    /// Authors / creators, in declaration order.
    pub authors: Vec<String>,
    /// Primary language tag, if declared.
    pub language: Option<String>,
    /// Unique identifier (ISBN, UUID, URN, ...) as declared.
    pub identifier: Option<String>,
    /// Publisher name, if declared.
    pub publisher: Option<String>,
}

/// One entry of the reading order.
#[derive(Debug)]
pub struct ChapterRef {
    /// The format's id for the chapter (for EPUB the spine `idref`).
    pub id: String,
    /// Title from the navigation document, if any.
    pub title: Option<String>,
}

/// The XHTML of one chapter and the archive path it lives at.
#[derive(Debug)]
pub struct ChapterContent {
    /// Raw XHTML.
    pub xhtml: String,
    /// Archive path of the XHTML, against which relative references resolve.
    pub base_path: String,
}

} // verus!
