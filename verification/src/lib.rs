//! A tokenizer and a recursive-descent parser for JSON-like text.
//!
//! Text is first cut into [`token::Token`]s by the [`lexer::Lexer`]; the
//! [`parser::Parser`] then reads the tokens with one token of lookahead and
//! builds a tree of [`node::Node`]s. Commas are separators that may be
//! repeated or left out anywhere between the members of an object or the
//! elements of an array.
//!
//! [`layout`] and [`writing`] hold no code that runs: they write trees out as
//! tokens and tokens out as text, to state what the parser and the tokenizer
//! read back.
pub mod chars;
pub mod token;
pub mod lexer;
pub mod node;
pub mod parser;
pub mod layout;
pub mod writing;
