//! Core of a static template-rendering tool.
//!
//! The library owns the logic that is worth getting right: deciding which
//! discovered files count as templates, deriving each template's canonical
//! name, keeping the name-keyed registry, deep-merging value documents and
//! environment variables into one rendering context, and laying out the
//! output paths. File-system traversal, parsing of value files, rendering and
//! logging are performed by a thin unverified shell around this crate, which
//! hands plain values in and out.

pub mod config;
pub mod value;
pub mod discover;
pub mod dispatch;
