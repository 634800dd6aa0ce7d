//! A lexical semantic analyzer for JavaScript/TypeScript source trees.
//!
//! Fed a depth-first pre-order walk of a syntax tree, the extractor emits a
//! linear stream of semantic events: scope openings and closings, binding
//! declarations, reads, writes, exports, and unresolved references. The
//! behaviour of every operation is specified in `model`, the executable
//! extractor in `extractor` is proved to implement it, and `laws` proves the
//! stream-level guarantees of the whole event stream.

pub mod binding;
pub mod binding_table;
pub mod cli;
pub mod events;
pub mod extractor;
pub mod laws;
pub mod model;
pub mod syntax;
