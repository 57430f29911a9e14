//! Resolves symbolic cross-reference tags in a documentation tree into
//! relative hyperlinks.
//!
//! The library has three parts: a path relativizer that computes the
//! forward-slash relative path from one file's location to another, a
//! reference table mapping stable identifiers to root-relative target paths,
//! and a tag rewriter that replaces each `{{reference: ...}}` tag in a
//! document's text with a markdown link.

use vstd::prelude::*;

pub mod paths;
pub mod reference_table;
pub mod rewrite;
mod text;

pub use paths::calculate_relative_path;
pub use reference_table::LoadError;
pub use reference_table::ReferenceTable;
pub use text::str_eq;

verus! {

} // verus!
