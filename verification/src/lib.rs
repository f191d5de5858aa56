//! Converts an infix expression into a fully parenthesized prefix form.
//!
//! The text is first cut into tokens by the [`ast::Lexer`], then a
//! precedence-climbing [`ast::Parser`] builds a tree of [`ast::Node`]s, which
//! renders as an S-expression.

pub mod ast;
pub mod diagnostic;
pub mod grammar;
pub mod grammar_laws;
pub mod lexer;
pub mod lexer_laws;
pub mod parser;
pub mod render;
pub mod text;
