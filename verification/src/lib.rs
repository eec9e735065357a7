//! A hierarchical table of contents: level-driven nesting of entries and two
//! deterministic renderings, an HTML list and an EPUB navigation map.

pub mod laws;
pub mod markup;
pub mod model;
pub mod text;
pub mod toc;

pub use toc::{Toc, TocElement};
