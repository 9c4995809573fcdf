//! Lexical analysis for the Seal language: a table-driven longest-match
//! scanner, a trivia filter, and the resolver that decides which physical
//! newlines end a statement.

pub mod ast;
pub mod dfa;
pub mod grammar;
pub mod keywords;
pub mod laws;
pub mod lexer;
pub mod position;
pub mod scanner;
pub mod seal_dfa;
pub mod soundness;
pub mod stripper;
pub mod text;
pub mod token;
pub mod walks;

pub use ast::Node;
pub use dfa::Dfa;
pub use lexer::Lexer;
pub use scanner::InnerLexer;
pub use stripper::WhitespaceStripper;
pub use token::{Item, Lexeme, LexicalError, Location, Spanned, Tok, Token, TokenType};
