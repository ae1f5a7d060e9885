//! An incremental syntax-highlighting engine.
//!
//! The engine turns a text buffer into an ordered, non-overlapping list of
//! styled spans.  It parses the text with a grammar-based incremental parser,
//! runs a compiled pattern query over the requested byte range, resolves
//! embedded sub-language regions, and collapses the overlapping label spans
//! that matching produces into a minimal covering of the requested range.
pub mod collect;
pub mod compile;
pub mod engine;
pub mod monitor;
pub mod normalize;
pub mod process_table;
pub mod registry;
pub mod span;
pub mod strutil;
pub mod style;
pub mod text;
pub mod theme;
pub mod ts;

