//! A rule-driven lexical scanner with verified behaviour.

pub mod cursor;
pub mod hook;
pub mod laws;
pub mod lexer;
pub mod matching;
pub mod model;
pub mod predicate;
pub mod rules;
pub mod text;
pub mod token;

pub use crate::cursor::LexerCore;
pub use crate::lexer::Lexer;
pub use crate::rules::LexerData;
