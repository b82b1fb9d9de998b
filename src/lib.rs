//! Parsing of first-order statements and arguments, and the truth tree that
//! a tableau procedure grows from them.
//!
//! Lowercase letters `a` to `t` are singular terms and `u` to `z` are
//! variables. A numeral of subscript or superscript digits too large for a
//! `u64` is a syntax error. Closing a closed branch changes nothing.
pub mod ast;
pub mod branch;
pub mod error;
pub mod grammar;
pub mod lexer;
pub mod parser;
pub mod truth_tree;
