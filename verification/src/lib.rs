//! A parser for a small expression language: booleans, signed integers,
//! addition and a ternary conditional, with parentheses for grouping.
//!
//! [`parser::parse`] turns a text into a [`term::Term`] or fails with the
//! one opaque [`parser::ParseError`].
//!
//! What it returns is stated twice. [`grammar`] holds the rules as they
//! read a text from left to right, and the parser is proved to compute
//! them. [`phrase`] holds the phrases that the grammar generates, with
//! their tokens and their meaning; [`theorems`] shows that every text that
//! spells a phrase parses to its meaning, whatever blanks it holds, and
//! [`derivation`] that no other text parses. The scanners for blanks,
//! single characters, words, integers and the end of the text are nom's.
pub mod term;
pub mod text;
pub mod grammar;
pub mod parser;
pub mod phrase;
pub mod theorems;
pub mod derivation;
mod scan;
