//! Core of a small language front-end.
//!
//! - text: [`chars`], [`text`], [`format`], [`spanfmt`] and [`repr`] hold
//!   character classes, conversions and text renderings;
//! - sources: [`span`] and [`input`] read source text through spans and
//!   cursors that track lines, columns and indentation;
//! - scanning: [`symbols`] (a symbol trie), [`matchers`] (comments, string
//!   literals, numbers), [`matcher`] (the scanner) and [`token`];
//! - parsing: [`segments`] splits tokens into lines, indented blocks and
//!   bracket groups, [`brackets`] groups node lists by brackets;
//! - values: [`values`] (integers), [`types`], [`cell`] and [`strings`];
//! - names: [`offset`] and [`scope`] bind names to values at code offsets;
//! - resolution: [`resolve`] merges node replacements, [`operators`] holds
//!   precedence and operator tables;
//! - [`errors`] and [`core_error`] collect errors, [`arena`] stores items in
//!   pages, [`runtime`] captures output and [`eval`] runs `print` statements.

pub mod chars;
pub mod symbols;
pub mod text;
pub mod span;
pub mod format;
pub mod errors;
pub mod token;
pub mod matchers;
pub mod matcher;
pub mod values;
pub mod types;
pub mod brackets;
pub mod segments;
pub mod input;
pub mod offset;
pub mod operators;
pub mod strings;
pub mod cell;
pub mod arena;
pub mod spanfmt;
pub mod core_error;
pub mod repr;
pub mod resolve;
pub mod scope;
pub mod eval;
pub mod runtime;
