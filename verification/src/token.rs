//! The token model: the closed set of lexical categories that the language
//! recognizes, and the tokenizer-level error.

use vstd::prelude::*;

verus! {

/// A lexical token. Tokens are immutable values with structural equality and
/// carry no position information. `EOF` is the end-of-input sentinel;
/// `Illegal` carries the text of a character that matches no lexical rule.
#[derive(Debug, PartialEq, Eq)]
pub enum Token {
    EOF,
    Illegal(String),
    Identifier(String),
    Integer(i32),
    True,
    False,
    Function,
    Let,
    Return,
    If,
    Else,
    Assign,
    Plus,
    Minus,
    Bang,
    Asterisk,
    Slash,
    LT,
    GT,
    Equal,
    NotEqual,
    Comma,
    Semicolon,
    LParen,
    RParen,
    LBrace,
    RBrace,
}

/// The mathematical shape of a token: text is a sequence of characters and an
/// integer literal is an unbounded integer. Contracts are stated over this
/// type, through `Token::view`.
pub enum SpecToken {
    EOF,
    Illegal(Seq<char>),
    Identifier(Seq<char>),
    Integer(int),
    True,
    False,
    Function,
    Let,
    Return,
    If,
    Else,
    Assign,
    Plus,
    Minus,
    Bang,
    Asterisk,
    Slash,
    LT,
    GT,
    Equal,
    NotEqual,
    Comma,
    Semicolon,
    LParen,
    RParen,
    LBrace,
    RBrace,
}

impl View for Token {
    type V = SpecToken;

    open spec fn view(&self) -> SpecToken {
        match self {
            Token::EOF => SpecToken::EOF,
            Token::Illegal(s) => SpecToken::Illegal(s@),
            Token::Identifier(s) => SpecToken::Identifier(s@),
            Token::Integer(v) => SpecToken::Integer(*v as int),
            Token::True => SpecToken::True,
            Token::False => SpecToken::False,
            Token::Function => SpecToken::Function,
            Token::Let => SpecToken::Let,
            Token::Return => SpecToken::Return,
            Token::If => SpecToken::If,
            Token::Else => SpecToken::Else,
            Token::Assign => SpecToken::Assign,
            Token::Plus => SpecToken::Plus,
            Token::Minus => SpecToken::Minus,
            Token::Bang => SpecToken::Bang,
            Token::Asterisk => SpecToken::Asterisk,
            Token::Slash => SpecToken::Slash,
            Token::LT => SpecToken::LT,
            Token::GT => SpecToken::GT,
            Token::Equal => SpecToken::Equal,
            Token::NotEqual => SpecToken::NotEqual,
            Token::Comma => SpecToken::Comma,
            Token::Semicolon => SpecToken::Semicolon,
            Token::LParen => SpecToken::LParen,
            Token::RParen => SpecToken::RParen,
            Token::LBrace => SpecToken::LBrace,
            Token::RBrace => SpecToken::RBrace,
        }
    }
}

/// A tokenizer-level failure. An illegal character is not a failure (it is
/// reported as a `Token::Illegal` value); the only way tokenizing a token can
/// fail is a digit run whose value does not fit in the numeric type.
#[derive(Debug, Clone, Copy, PartialEq, Eq, Structural)]
pub enum LexError {
    IntegerOverflow,
}

/// Lifts a tokenizer result to the mathematical level.
pub open spec fn res_view(r: Result<Token, LexError>) -> Result<SpecToken, LexError> {
    match r {
        Ok(t) => Ok(t@),
        Err(e) => Err(e),
    }
}

} // verus!
