use monkeyterp::lexer::Lexer;
use monkeyterp::token::{LexError, Token};

#[test]
fn lexer_tokenizes_simple_chars() {
    let input = "=+(){},;";

    let tests = vec![
        Token::Assign,
        Token::Plus,
        Token::LParen,
        Token::RParen,
        Token::LBrace,
        Token::RBrace,
        Token::Comma,
        Token::Semicolon,
        Token::EOF,
    ];

    let mut l = Lexer::new(input);

    for tt in tests.iter() {
        let tok = l.next_token().unwrap();
        assert_eq!(&tok, tt);
    }
}

#[test]
fn lexer_tokenizes_all_monkey_tokens() {
    let input = "let five = 5;
            let ten = 10;
            let add = fn(x, y) {
            x + y;
            };
            let result = add(five, ten);
            !-/*5;
            5 < 10 > 5;

            if (5 < 10) {
                return true;
            } else {
                return false;
            }
            10 == 10;
            10 != 9;
            ";
    let tests = vec![
        Token::Let,
        Token::Identifier("five".into()),
        Token::Assign,
        Token::Integer(5),
        Token::Semicolon,
        Token::Let,
        Token::Identifier("ten".into()),
        Token::Assign,
        Token::Integer(10),
        Token::Semicolon,
        Token::Let,
        Token::Identifier("add".into()),
        Token::Assign,
        Token::Function,
        Token::LParen,
        Token::Identifier("x".into()),
        Token::Comma,
        Token::Identifier("y".into()),
        Token::RParen,
        Token::LBrace,
        Token::Identifier("x".into()),
        Token::Plus,
        Token::Identifier("y".into()),
        Token::Semicolon,
        Token::RBrace,
        Token::Semicolon,
        Token::Let,
        Token::Identifier("result".into()),
        Token::Assign,
        Token::Identifier("add".into()),
        Token::LParen,
        Token::Identifier("five".into()),
        Token::Comma,
        Token::Identifier("ten".into()),
        Token::RParen,
        Token::Semicolon,
        Token::Bang,
        Token::Minus,
        Token::Slash,
        Token::Asterisk,
        Token::Integer(5),
        Token::Semicolon,
        Token::Integer(5),
        Token::LT,
        Token::Integer(10),
        Token::GT,
        Token::Integer(5),
        Token::Semicolon,
        Token::If,
        Token::LParen,
        Token::Integer(5),
        Token::LT,
        Token::Integer(10),
        Token::RParen,
        Token::LBrace,
        Token::Return,
        Token::True,
        Token::Semicolon,
        Token::RBrace,
        Token::Else,
        Token::LBrace,
        Token::Return,
        Token::False,
        Token::Semicolon,
        Token::RBrace,
        Token::Integer(10),
        Token::Equal,
        Token::Integer(10),
        Token::Semicolon,
        Token::Integer(10),
        Token::NotEqual,
        Token::Integer(9),
        Token::Semicolon,
        Token::EOF,
    ];

    let mut l = Lexer::new(input);

    for tt in tests.iter() {
        let tok = l.next_token().unwrap();
        assert_eq!(&tok, tt);
    }
}

fn collect_tokens(input: &str) -> Vec<Result<Token, LexError>> {
    let mut l = Lexer::new(input);
    let mut out = Vec::new();
    loop {
        let tok = l.next_token();
        let done = tok == Ok(Token::EOF);
        out.push(tok);
        if done {
            return out;
        }
    }
}

#[test]
fn lexer_tokenizes_let_binding() {
    let tokens = collect_tokens("let five = 5;");
    let expected = vec![
        Ok(Token::Let),
        Ok(Token::Identifier("five".into())),
        Ok(Token::Assign),
        Ok(Token::Integer(5)),
        Ok(Token::Semicolon),
        Ok(Token::EOF),
    ];
    assert_eq!(tokens, expected);
}

#[test]
fn lexer_distinguishes_equality_operators() {
    let tokens = collect_tokens("10 == 10;");
    let expected = vec![
        Ok(Token::Integer(10)),
        Ok(Token::Equal),
        Ok(Token::Integer(10)),
        Ok(Token::Semicolon),
        Ok(Token::EOF),
    ];
    assert_eq!(tokens, expected);

    let tokens = collect_tokens("10 != 9;");
    let expected = vec![
        Ok(Token::Integer(10)),
        Ok(Token::NotEqual),
        Ok(Token::Integer(9)),
        Ok(Token::Semicolon),
        Ok(Token::EOF),
    ];
    assert_eq!(tokens, expected);
}

#[test]
fn lexer_is_deterministic() {
    let input = "let a = 1; return foo != 42; @@ 99999999999;";
    let first = collect_tokens(input);
    let second = collect_tokens(input);
    assert_eq!(first, second);
}

#[test]
fn lexer_reaches_eof_and_stays_there() {
    let mut l = Lexer::new("x");
    assert_eq!(l.next_token(), Ok(Token::Identifier("x".into())));
    assert_eq!(l.next_token(), Ok(Token::EOF));
    assert_eq!(l.next_token(), Ok(Token::EOF));
    assert_eq!(l.next_token(), Ok(Token::EOF));

    let mut empty = Lexer::new("");
    assert_eq!(empty.next_token(), Ok(Token::EOF));
    assert_eq!(empty.next_token(), Ok(Token::EOF));

    let mut blank = Lexer::new(" \t\n ");
    assert_eq!(blank.next_token(), Ok(Token::EOF));
    assert_eq!(blank.next_token(), Ok(Token::EOF));
}

#[test]
fn lexer_reads_largest_integer() {
    let tokens = collect_tokens("2147483647");
    assert_eq!(tokens, vec![Ok(Token::Integer(2147483647)), Ok(Token::EOF)]);
}

#[test]
fn lexer_reports_integer_overflow() {
    let mut l = Lexer::new("2147483648");
    assert_eq!(l.next_token(), Err(LexError::IntegerOverflow));

    let mut l = Lexer::new("99999999999999999999999");
    assert_eq!(l.next_token(), Err(LexError::IntegerOverflow));
}

#[test]
fn lexer_continues_after_overflow() {
    let tokens = collect_tokens("99999999999; 7");
    let expected = vec![
        Err(LexError::IntegerOverflow),
        Ok(Token::Semicolon),
        Ok(Token::Integer(7)),
        Ok(Token::EOF),
    ];
    assert_eq!(tokens, expected);
}

#[test]
fn lexer_contains_illegal_characters() {
    let tokens = collect_tokens("a @ b");
    let expected = vec![
        Ok(Token::Identifier("a".into())),
        Ok(Token::Illegal("@".into())),
        Ok(Token::Identifier("b".into())),
        Ok(Token::EOF),
    ];
    assert_eq!(tokens, expected);

    let tokens = collect_tokens("#");
    assert_eq!(tokens, vec![Ok(Token::Illegal("#".into())), Ok(Token::EOF)]);
}

#[test]
fn lexer_reads_identifiers_with_non_ascii_letters() {
    // An alphabetic character outside ASCII belongs to an identifier run,
    // while a non-alphabetic one does not.
    let tokens = collect_tokens("let caf\u{e9} = 5;");
    let expected = vec![
        Ok(Token::Let),
        Ok(Token::Identifier("caf\u{e9}".into())),
        Ok(Token::Assign),
        Ok(Token::Integer(5)),
        Ok(Token::Semicolon),
        Ok(Token::EOF),
    ];
    assert_eq!(tokens, expected);

    let tokens = collect_tokens("ab\u{e9}c");
    assert_eq!(
        tokens,
        vec![Ok(Token::Identifier("ab\u{e9}c".into())), Ok(Token::EOF)]
    );

    let tokens = collect_tokens("\u{2116}");
    assert_eq!(
        tokens,
        vec![Ok(Token::Illegal("\u{2116}".into())), Ok(Token::EOF)]
    );
}

#[test]
fn lexer_reads_underscored_identifiers() {
    let tokens = collect_tokens("_foo_bar lettuce");
    let expected = vec![
        Ok(Token::Identifier("_foo_bar".into())),
        Ok(Token::Identifier("lettuce".into())),
        Ok(Token::EOF),
    ];
    assert_eq!(tokens, expected);
}
