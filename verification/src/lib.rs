//! A small regular-expression engine: a parser from pattern text to pattern
//! nodes, and a matcher of nodes against a line of input.
//!
//! Patterns know literals, `.`, `\d`, `\w`, classes in square brackets,
//! `^` and `$`, the quantifiers `+`, `*` and `?`, groups of alternatives in
//! round brackets, and references `\1` to `\9` to what a group has matched. A
//! quantifier is never given characters back: once a node has taken what it
//! takes, the rest of the pattern has to match what is left.

pub mod chars;
pub mod pattern;
pub mod rank;
pub mod grammar;
pub mod parser;
pub mod matching;
pub mod engine;
pub mod matching_laws;
pub mod grammar_laws;

pub use crate::engine::match_pattern;
pub use crate::grammar::ParseError;
pub use crate::matching::MatchError;
pub use crate::parser::parse;
pub use crate::pattern::RE;
