//! Recognition and removal of preprocessor directives in OneScript source text.
//!
//! The lexer splits a text into plain-text runs and the tokens of directive
//! lines; the preprocessor rebuilds the text with every directive blanked out,
//! keeping line breaks where they were.

/// Tokens, token kinds and the table of directive keywords.
pub mod token;

/// The lexer and the model of the token sequence it produces.
pub mod lexer;

/// Removal of directives from source text.
pub mod preprocessor;

/// Facts about the token sequence and the stripped text that hold for every input.
pub mod proofs;
