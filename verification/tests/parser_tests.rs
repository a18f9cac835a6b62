use monkeyterp::ast::{Expression, Program, Statement};
use monkeyterp::lexer::Lexer;
use monkeyterp::parser::{ParseError, Parser};
use monkeyterp::token::Token;

fn parse(input: &str) -> (Program, Vec<ParseError>) {
    let lexer = Lexer::new(input);
    let mut parser = Parser::new(lexer);
    let program = parser.parse_program();
    (program, parser.errors().clone())
}

#[test]
fn test_let_statements() {
    let input = r"let x  10;
                    let y = true;
                    let z = y;";

    let (program, errors) = parse(input);

    // The first binding is missing its `=`: it is recorded as an error and
    // skipped, and the two well-formed bindings still parse.
    let expected = vec![
        Statement::Let(Token::Identifier("y".into()), Expression::Boolean(true)),
        Statement::Let(
            Token::Identifier("z".into()),
            Expression::Identifier(Token::Identifier("y".into())),
        ),
    ];

    assert_eq!(program.statements, expected);
    assert_eq!(errors, vec![ParseError::ExpectedAssignToken]);
}

#[test]
fn test_return_statements() {
    let input = r"return 10;
                    return 5;
                    return 99999;";

    let (program, errors) = parse(input);

    let expected = vec![
        Statement::Return(Expression::Integer(10)),
        Statement::Return(Expression::Integer(5)),
        Statement::Return(Expression::Integer(99999)),
    ];

    assert_eq!(program.statements, expected);
    assert_eq!(errors, Vec::new());
}

#[test]
fn test_identifier_expression() {
    let input = r"foobar;";

    let (program, errors) = parse(input);

    let expected = vec![Statement::Expression(Expression::Identifier(Token::Identifier(
        "foobar".into(),
    )))];

    assert_eq!(program.statements, expected);
    assert_eq!(errors, Vec::new());
}

#[test]
fn parser_builds_let_statement() {
    let (program, errors) = parse("let x = 10;");
    let expected = vec![Statement::Let(
        Token::Identifier("x".into()),
        Expression::Integer(10),
    )];
    assert_eq!(program.statements, expected);
    assert_eq!(errors, Vec::new());
}

#[test]
fn parser_builds_return_statement() {
    let (program, errors) = parse("return 5;");
    let expected = vec![Statement::Return(Expression::Integer(5))];
    assert_eq!(program.statements, expected);
    assert_eq!(errors, Vec::new());
}

#[test]
fn parser_reports_missing_assign_and_recovers() {
    let (program, errors) = parse("let x 10;");
    assert_eq!(program.statements, Vec::new());
    assert_eq!(errors, vec![ParseError::ExpectedAssignToken]);

    // The malformed binding must not suppress later valid statements.
    let (program, errors) = parse("let x 10; let y = 5;");
    let expected = vec![Statement::Let(
        Token::Identifier("y".into()),
        Expression::Integer(5),
    )];
    assert_eq!(program.statements, expected);
    assert_eq!(errors, vec![ParseError::ExpectedAssignToken]);
}

#[test]
fn parser_reports_missing_identifier() {
    let (program, errors) = parse("let 5 = 3;");
    assert_eq!(program.statements, Vec::new());
    assert_eq!(errors, vec![ParseError::ExpectedIdentifier]);
}

#[test]
fn parser_reports_unexpected_end_of_input() {
    let (program, errors) = parse("let x =");
    assert_eq!(program.statements, Vec::new());
    assert_eq!(errors, vec![ParseError::UnexpectedEndOfInput]);
}

#[test]
fn parser_reports_integer_overflow() {
    let (program, errors) = parse("let x = 99999999999;");
    assert_eq!(program.statements, Vec::new());
    assert_eq!(errors, vec![ParseError::IntegerOverflow]);
}

#[test]
fn parser_reports_statement_with_no_known_start() {
    let (program, errors) = parse("@;");
    assert_eq!(program.statements, Vec::new());
    assert_eq!(errors, vec![ParseError::UnexpectedStatementStart]);
}

#[test]
fn parser_accumulates_errors_in_source_order() {
    // Two malformed statements among three well-formed ones: the program keeps
    // exactly the three statements and the error list exactly the two
    // failures, each in source order.
    let input = "let a = 1; let b 2; return 3; @; c;";
    let (program, errors) = parse(input);

    let expected = vec![
        Statement::Let(Token::Identifier("a".into()), Expression::Integer(1)),
        Statement::Return(Expression::Integer(3)),
        Statement::Expression(Expression::Identifier(Token::Identifier("c".into()))),
    ];
    assert_eq!(program.statements, expected);
    assert_eq!(
        errors,
        vec![ParseError::ExpectedAssignToken, ParseError::UnexpectedStatementStart]
    );
}

#[test]
fn parser_parses_boolean_literals() {
    let (program, errors) = parse("true; false;");
    let expected = vec![
        Statement::Expression(Expression::Boolean(true)),
        Statement::Expression(Expression::Boolean(false)),
    ];
    assert_eq!(program.statements, expected);
    assert_eq!(errors, Vec::new());
}

#[test]
fn parser_allows_bare_expression_at_end_of_input() {
    let (program, errors) = parse("foobar");
    let expected = vec![Statement::Expression(Expression::Identifier(Token::Identifier(
        "foobar".into(),
    )))];
    assert_eq!(program.statements, expected);
    assert_eq!(errors, Vec::new());
}

#[test]
fn parser_returns_empty_program_for_empty_input() {
    let (program, errors) = parse("");
    assert_eq!(program.statements, Vec::new());
    assert_eq!(errors, Vec::new());

    let (program, errors) = parse("   \n\t  ");
    assert_eq!(program.statements, Vec::new());
    assert_eq!(errors, Vec::new());
}
