//! A verified lexical analyzer for JSON source text.
//!
//! The crate turns one in-memory text buffer into a sequence of lexical
//! tokens: structural punctuation, the three keywords, string literals with
//! their escapes decoded, and numeric literals. It is a tokenizer only: it
//! does not build a value tree and does not check structural nesting.

pub mod input;
pub mod lexer;
pub mod token;

pub use input::Input;
pub use lexer::Lexer;
pub use token::LexError;
pub use token::Token;
