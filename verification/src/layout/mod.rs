//! The parts of the XHTML / CSS-subset layout engine that decide rather
//! than measure: archive paths, CSS parsing and the chapter tree walk.

pub mod paginate;
pub mod parse;
pub mod style;
