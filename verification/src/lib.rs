//! A small backtracking matcher for a restricted extended-regular-expression
//! syntax: patterns are tokenized, parsed into a pattern tree and evaluated
//! against one line of text.
//!
//! - `tokens`: the tokenizer.
//! - `patterns`: the character predicates.
//! - `syntax`: the pattern tree and its parser.
//! - `semantics`: what a pattern tree means.
//! - `matcher`: the matcher itself, and the search over the offsets of a
//!   line.
//! - `matchable`: the patterns that the matcher can be run on.
//! - `capture_ids`: how the parser numbers capture groups.
//! - `completeness`: that the matcher finds a match whenever there is one.
//! - `theorems`: which texts some families of patterns match.

pub mod capture_ids;
pub mod completeness;
pub mod matchable;
pub mod matcher;
pub mod patterns;
pub mod semantics;
pub mod syntax;
pub mod theorems;
pub mod tokens;
