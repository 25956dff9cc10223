//! Runtime for a grammar-driven parser compiler.
//!
//! A declarative, version-aware grammar (productions composed of sequences,
//! choices, repetitions, precedence expressions and lexical scanners) is
//! compiled into tables and decision tries, and a recursive-descent
//! backtracking engine drives them over source text to produce a lossless
//! concrete syntax tree together with structured diagnostics.

pub mod choice_helper;
pub mod cst;
pub mod debugger;
pub mod diagnostic;
pub mod grammar;
pub mod kinds;
pub mod model;
pub mod parse_error;
pub mod parser_function;
pub mod parser_result;
pub mod precedence;
pub mod recovery;
pub mod repetition_helper;
pub mod scanner;
pub mod schema;
pub mod sequence_helper;
pub mod stream;
pub mod text_index;
pub mod trie;
pub mod version;
pub mod visitor;
