//! Tokens, the token grammar, the lexer and the command-line splitter.
pub mod grammar;
pub mod laws;
pub mod lexer;
pub mod rcommand;
pub mod token;

pub use grammar::LexError;
pub use lexer::Lexer;
pub use token::Token;
