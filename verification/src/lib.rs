//! A character-stream tokenizer for a small C-like scripting language.
//!
//! The [`lexer::Lexer`] turns source text into a sequence of [`token::Token`]
//! values: keywords, identifiers, integer literals tagged with their radix,
//! one- and two-character operators, delimiters, and a terminal end-of-input
//! marker. Every scanning step is specified against a mathematical model of
//! the token stream and verified.

pub mod laws;
pub mod lexer;
pub mod token;

pub use lexer::Lexer;
pub use token::IntegerKind;
pub use token::Token;
pub use token::TokenError;
