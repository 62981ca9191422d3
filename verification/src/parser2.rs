//! A second, smaller lexer for FTL sources that holds only messages and comments.
pub mod lexer;
