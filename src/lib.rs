//! A grapheme-aware lexer for TLA+ module text.
//!
//! The cursor walks the text one extended grapheme cluster at a time, keeps
//! line, column and byte offset, and backtracks through a stack of saved
//! positions. Combinators built on it recognise whitespace, literals,
//! identifiers, comments and operators, and a small state machine turns them
//! into classified tokens.
pub mod cursor;
pub mod laws;
pub mod lexer;
pub mod scan;
pub mod style;
pub mod token;

pub use cursor::{Pos, TAB_WIDTH};
pub use lexer::{Error, Lexer, LexerState};
pub use scan::Token;
pub use style::ParseTree;
pub use token::{Keyword, TokenType};
