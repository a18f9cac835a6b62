//! Front end of a small interpreted language: a tokenizer that turns source
//! text into a stream of lexical tokens, and a parser that turns that stream
//! into an abstract syntax tree of statements and expressions.

pub mod ast;
pub mod lexer;
pub mod parser;
pub mod token;
