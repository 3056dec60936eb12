//! The library's error type.
//!
//! Every variant names the offending input: a path, a spine index, a
//! resource name. Display strings live with the application, which is
//! where errors are shown.

use vstd::prelude::*;

use serde_json::Error as JsonError;
use std::io::Error as IoError;
use std::path::PathBuf;

verus! {

/// `std::path::PathBuf`, carried through as an opaque value.
#[verifier::external_type_specification]
#[verifier::external_body]
pub struct ExPathBuf(PathBuf);

/// Trusted: cloning a `PathBuf` yields the same path.
pub assume_specification[ <PathBuf as Clone>::clone ](p: &PathBuf) -> (r: PathBuf)
    ensures
        r == *p,
;

/// `std::io::Error`, carried through as an opaque value.
#[verifier::external_type_specification]
#[verifier::external_body]
pub struct ExIoError(IoError);

/// `serde_json::Error`, carried through as an opaque value.
#[verifier::external_type_specification]
#[verifier::external_body]
pub struct ExJsonError(JsonError);

/// Errors produced by the library.
#[derive(Debug)]
#[allow(inconsistent_fields)]
pub enum Error {
    /// The GUI runtime failed to start or exited with an error.
    Ui(String),
    /// I/O failure while reading an EPUB from disk.
    Io {
        /// Path to the EPUB file that was to be opened.
        path: PathBuf,
        /// The underlying I/O error.
        source: IoError,
    },
    /// The EPUB at `path` is malformed.
    Parse {
        /// Path to the EPUB file.
        path: PathBuf,
        /// What went wrong.
        message: String,
    },
    /// A chapter's bytes were not valid UTF-8.
    InvalidUtf8 {
        /// Spine index of the chapter.
        index: usize,
    },
    /// A chapter index outside the spine.
    InvalidChapter {
        /// The requested index.
        index: usize,
        /// The length of the spine.
        len: usize,
    },
    /// A resource referenced by the book is not in the archive.
    MissingResource {
        /// The resource path that was looked up.
        path: String,
    },
    /// A chapter's XHTML could not be parsed.
    LayoutParse {
        /// The XML parser's explanation.
        message: String,
    },
    /// An image referenced by chapter XHTML could not be decoded.
    ImageDecode {
        /// The `src` attribute as written in the chapter.
        src: String,
        /// The decoder's explanation.
        message: String,
    },
    /// The background pagination worker went away.
    Worker(String),
    /// A recents / progress / cover operation failed.
    Persistence {
        /// Filesystem path the operation targeted.
        path: PathBuf,
        /// What kind of failure.
        source: PersistenceErrorKind,
    },
}

/// The underlying cause of an [`Error::Persistence`].
#[derive(Debug)]
pub enum PersistenceErrorKind {
    /// An I/O call failed.
    Io(IoError),
    /// The on-disk JSON could not be read or written.
    Json(JsonError),
    /// A cover image could not be decoded or resized.
    Image(String),
}

} // verus!
