//! A two-stage front end for a small textual language: a character-level
//! tokenizer and a single-token-lookahead recursive-descent parser that
//! builds a typed abstract syntax tree.
//!
//! The tokenizer turns a buffer of characters into typed tokens, checking
//! each against a caller-supplied set of acceptable kinds; the parser
//! drives the tokenizer according to the grammar and materializes the tree.
//! Every error (lexical or grammatical) is fatal and surfaces as a typed
//! error value; no partial tree is ever produced.

pub mod token;
pub mod keywords;
pub mod lexer;
pub mod syntax_tree;
pub mod parser;
pub mod laws;
