//! The parser: consumes the tokenizer's stream under exclusive ownership with
//! one token of lookahead, dispatches by the current token into statement
//! grammars, and builds expressions by precedence climbing over a prefix/infix
//! registry. A malformed statement never aborts the parse: its error is
//! recorded, the cursor skips to the next statement boundary, and parsing
//! resumes, so the returned program holds every statement that did parse and
//! the error list holds every failure, both in source order.
//!
//! The parse of a source text is pinned down by [`spec_statement_outcomes`]:
//! the per-statement results, in source order, from which the program is the
//! well-formed statements and the error list the failures.

use vstd::prelude::*;

use crate::ast::{Expression, Program, SpecExpression, SpecStatement, Statement};
use crate::lexer::{pos_after, token_at, Lexer};
use crate::token::{res_view, LexError, SpecToken, Token};

verus! {

/// A statement-level parse failure. `IntegerOverflow` carries the tokenizer's
/// failure into the parse; the rest are grammar failures.
#[derive(Debug, Clone, Copy, PartialEq, Eq, Structural)]
pub enum ParseError {
    IntegerOverflow,
    ExpectedIdentifier,
    ExpectedAssignToken,
    UnexpectedStatementStart,
    UnexpectedEndOfInput,
}

/// Precedence levels for expression parsing, a total order from loosest to
/// tightest binding.
#[derive(Debug, Clone, Copy, PartialEq, Eq, Structural)]
pub enum Precedence {
    Lowest,
    Equals,
    LessGreater,
    Sum,
    Product,
    Prefix,
    Call,
}

/// The rank of a precedence level within the total order, lowest first.
pub open spec fn spec_precedence_rank(p: Precedence) -> int {
    match p {
        Precedence::Lowest => 0,
        Precedence::Equals => 1,
        Precedence::LessGreater => 2,
        Precedence::Sum => 3,
        Precedence::Product => 4,
        Precedence::Prefix => 5,
        Precedence::Call => 6,
    }
}

/// Lifts a statement parse result to the mathematical level.
pub open spec fn stmt_res_view(r: Result<Statement, ParseError>) -> Result<
    SpecStatement,
    ParseError,
> {
    match r {
        Ok(s) => Ok(s@),
        Err(e) => Err(e),
    }
}

/// Lifts an expression parse result to the mathematical level.
pub open spec fn expr_res_view(r: Result<Expression, ParseError>) -> Result<
    SpecExpression,
    ParseError,
> {
    match r {
        Ok(e) => Ok(e@),
        Err(e) => Err(e),
    }
}

/// The view of a statement list.
pub open spec fn stmts_view(v: Seq<Statement>) -> Seq<SpecStatement> {
    v.map_values(|s: Statement| s@)
}

/// The cursor after an optional trailing semicolon: a semicolon under the
/// cursor is consumed, anything else is left for the next statement.
pub open spec fn spec_eat_semicolon(input: Seq<char>, c: int) -> int {
    if token_at(input, c) == Ok::<SpecToken, LexError>(SpecToken::Semicolon) {
        pos_after(input, c)
    } else {
        c
    }
}

/// Starting an expression at cursor `c`: the prefix behavior registered for
/// the current token builds the leaf it denotes; a token with no registered
/// prefix behavior is a parse error, split by whether the stream was
/// exhausted; a tokenizer failure surfaces as the overflow error. On failure
/// the offending token is left under the cursor for recovery.
pub open spec fn spec_parse_prefix(input: Seq<char>, c: int) -> (Result<
    SpecExpression,
    ParseError,
>, int) {
    match token_at(input, c) {
        Ok(SpecToken::Integer(v)) => (Ok(SpecExpression::Integer(v)), pos_after(input, c)),
        Ok(SpecToken::True) => (Ok(SpecExpression::Boolean(true)), pos_after(input, c)),
        Ok(SpecToken::False) => (Ok(SpecExpression::Boolean(false)), pos_after(input, c)),
        Ok(SpecToken::Identifier(name)) => (
            Ok(SpecExpression::Identifier(SpecToken::Identifier(name))),
            pos_after(input, c),
        ),
        Ok(SpecToken::EOF) => (Err(ParseError::UnexpectedEndOfInput), c),
        Ok(_) => (Err(ParseError::UnexpectedStatementStart), c),
        Err(_) => (Err(ParseError::IntegerOverflow), c),
    }
}

/// Parsing one expression at cursor `c`: a prefix expression, then the
/// precedence climb. No infix behavior is registered in the registry — the
/// grammar builds only leaves — so the climb consumes nothing and the result
/// is the prefix expression itself.
pub open spec fn spec_parse_expression(input: Seq<char>, c: int) -> (Result<
    SpecExpression,
    ParseError,
>, int) {
    spec_parse_prefix(input, c)
}

/// Parsing a let statement, the cursor just past the `let` keyword: the
/// grammar is `LET IDENT ASSIGN EXPR SEMICOLON`, the trailing semicolon
/// optional.
pub open spec fn spec_parse_let(input: Seq<char>, c: int) -> (Result<
    SpecStatement,
    ParseError,
>, int) {
    match token_at(input, c) {
        Ok(SpecToken::Identifier(name)) => {
            let c1 = pos_after(input, c);
            if token_at(input, c1) == Ok::<SpecToken, LexError>(SpecToken::Assign) {
                let c2 = pos_after(input, c1);
                let er = spec_parse_expression(input, c2);
                match er.0 {
                    Ok(expr) => (
                        Ok(SpecStatement::Let(SpecToken::Identifier(name), expr)),
                        spec_eat_semicolon(input, er.1),
                    ),
                    Err(e) => (Err(e), er.1),
                }
            } else {
                (Err(ParseError::ExpectedAssignToken), c1)
            }
        },
        _ => (Err(ParseError::ExpectedIdentifier), c),
    }
}

/// Parsing a return statement, the cursor just past the `return` keyword: the
/// grammar is `RETURN EXPR SEMICOLON`, the trailing semicolon optional.
pub open spec fn spec_parse_return(input: Seq<char>, c: int) -> (Result<
    SpecStatement,
    ParseError,
>, int) {
    let er = spec_parse_expression(input, c);
    match er.0 {
        Ok(expr) => (Ok(SpecStatement::Return(expr)), spec_eat_semicolon(input, er.1)),
        Err(e) => (Err(e), er.1),
    }
}

/// Parsing a bare expression used as a statement; the trailing semicolon is
/// optional, so a bare expression may end at the end of the input.
pub open spec fn spec_parse_expression_statement(input: Seq<char>, c: int) -> (Result<
    SpecStatement,
    ParseError,
>, int) {
    let er = spec_parse_expression(input, c);
    match er.0 {
        Ok(expr) => (Ok(SpecStatement::Expression(expr)), spec_eat_semicolon(input, er.1)),
        Err(e) => (Err(e), er.1),
    }
}

/// Parsing one statement at cursor `c`, dispatched by the current token.
pub open spec fn spec_parse_statement(input: Seq<char>, c: int) -> (Result<
    SpecStatement,
    ParseError,
>, int) {
    match token_at(input, c) {
        Ok(SpecToken::Let) => spec_parse_let(input, pos_after(input, c)),
        Ok(SpecToken::Return) => spec_parse_return(input, pos_after(input, c)),
        _ => spec_parse_expression_statement(input, c),
    }
}

/// The cursor after recovering from a malformed statement: tokens are skipped
/// up to the next statement boundary — past the next semicolon, or up to a
/// token that starts a statement, or to the end of the input.
pub open spec fn spec_recover(input: Seq<char>, c: int) -> int
    decreases input.len() - c when 0 <= c <= input.len()
{
    match token_at(input, c) {
        Ok(SpecToken::EOF) => c,
        Ok(SpecToken::Let) => c,
        Ok(SpecToken::Return) => c,
        Ok(SpecToken::Semicolon) => pos_after(input, c),
        _ => {
            proof {
                crate::lexer::lemma_step_progress(input, c);
            }
            spec_recover(input, pos_after(input, c))
        },
    }
}

/// Recovery never moves the cursor backwards nor past the end of the input.
pub proof fn lemma_recover_bounds(input: Seq<char>, c: int)
    requires
        0 <= c <= input.len(),
    ensures
        c <= spec_recover(input, c) <= input.len(),
    decreases input.len() - c,
{
    crate::lexer::lemma_step_progress(input, c);
    match token_at(input, c) {
        Ok(SpecToken::EOF) => {},
        Ok(SpecToken::Let) => {},
        Ok(SpecToken::Return) => {},
        Ok(SpecToken::Semicolon) => {},
        _ => {
            lemma_recover_bounds(input, pos_after(input, c));
        },
    }
}

/// An expression parse never moves the cursor backwards nor past the end, and
/// a successful one consumes at least one token.
pub proof fn lemma_parse_expression_progress(input: Seq<char>, c: int)
    requires
        0 <= c <= input.len(),
    ensures
        c <= spec_parse_expression(input, c).1 <= input.len(),
        spec_parse_expression(input, c).0 is Ok ==> spec_parse_expression(input, c).1 > c,
{
    crate::lexer::lemma_step_progress(input, c);
}

/// A statement parse stays within the input; away from the end of the input a
/// successful parse consumes at least one token, and a failed one followed by
/// recovery does too — so the parse loop always makes progress.
pub proof fn lemma_parse_statement_progress(input: Seq<char>, c: int)
    requires
        0 <= c <= input.len(),
    ensures
        0 <= spec_parse_statement(input, c).1 <= input.len(),
        token_at(input, c) != Ok::<SpecToken, LexError>(SpecToken::EOF) ==> ({
            let r = spec_parse_statement(input, c);
            &&& (r.0 is Ok ==> r.1 > c)
            &&& (r.0 is Err ==> c < spec_recover(input, r.1) <= input.len())
        }),
{
    crate::lexer::lemma_step_progress(input, c);
    match token_at(input, c) {
        Ok(SpecToken::Let) => {
            let cl = pos_after(input, c);
            crate::lexer::lemma_step_progress(input, cl);
            match token_at(input, cl) {
                Ok(SpecToken::Identifier(name)) => {
                    let c1 = pos_after(input, cl);
                    crate::lexer::lemma_step_progress(input, c1);
                    if token_at(input, c1) == Ok::<SpecToken, LexError>(SpecToken::Assign) {
                        let c2 = pos_after(input, c1);
                        lemma_parse_expression_progress(input, c2);
                        let er = spec_parse_expression(input, c2);
                        crate::lexer::lemma_step_progress(input, er.1);
                        lemma_recover_bounds(input, er.1);
                    } else {
                        lemma_recover_bounds(input, c1);
                    }
                },
                _ => {
                    lemma_recover_bounds(input, cl);
                },
            }
        },
        Ok(SpecToken::Return) => {
            let cr = pos_after(input, c);
            lemma_parse_expression_progress(input, cr);
            let er = spec_parse_expression(input, cr);
            crate::lexer::lemma_step_progress(input, er.1);
            lemma_recover_bounds(input, er.1);
        },
        Ok(SpecToken::EOF) => {
            lemma_parse_expression_progress(input, c);
        },
        _ => {
            lemma_parse_expression_progress(input, c);
            let er = spec_parse_expression(input, c);
            crate::lexer::lemma_step_progress(input, er.1);
            if er.0 is Err {
                lemma_recover_bounds(input, pos_after(input, c));
            }
        },
    }
}

/// The per-statement outcomes of a parse that starts at cursor `c`, in source
/// order: one entry per attempted statement, a well-formed statement or the
/// error that felled it.
pub open spec fn spec_statement_outcomes(input: Seq<char>, c: int) -> Seq<
    Result<SpecStatement, ParseError>,
>
    decreases input.len() - c when 0 <= c <= input.len()
{
    if token_at(input, c) == Ok::<SpecToken, LexError>(SpecToken::EOF) {
        Seq::empty()
    } else {
        let r = spec_parse_statement(input, c);
        let next = if r.0 is Ok {
            r.1
        } else {
            spec_recover(input, r.1)
        };
        proof {
            lemma_parse_statement_progress(input, c);
        }
        seq![r.0] + spec_statement_outcomes(input, next)
    }
}

/// The program built from a parse's outcomes: its well-formed statements, in
/// source order.
pub open spec fn spec_program_of(outs: Seq<Result<SpecStatement, ParseError>>) -> Seq<
    SpecStatement,
>
    decreases outs.len(),
{
    if outs.len() == 0 {
        Seq::empty()
    } else {
        let rest = spec_program_of(outs.drop_last());
        match outs.last() {
            Ok(s) => rest.push(s),
            Err(_) => rest,
        }
    }
}

/// The error list built from a parse's outcomes: its failures, in source
/// order.
pub open spec fn spec_errors_of(outs: Seq<Result<SpecStatement, ParseError>>) -> Seq<ParseError>
    decreases outs.len(),
{
    if outs.len() == 0 {
        Seq::empty()
    } else {
        let rest = spec_errors_of(outs.drop_last());
        match outs.last() {
            Ok(_) => rest,
            Err(e) => rest.push(e),
        }
    }
}

/// Every statement outcome a parse produces is well formed: a `let` statement
/// only ever comes out of the grammar binding an identifier token.
proof fn lemma_outcomes_wf(input: Seq<char>, c: int)
    requires
        0 <= c <= input.len(),
    ensures
        forall|i: int|
            0 <= i < spec_statement_outcomes(input, c).len() && spec_statement_outcomes(input, c)[i]
                is Ok ==> crate::ast::stmt_wf(#[trigger] spec_statement_outcomes(input, c)[i]->Ok_0),
    decreases input.len() - c,
{
    if token_at(input, c) != Ok::<SpecToken, LexError>(SpecToken::EOF) {
        lemma_parse_statement_progress(input, c);
        let r = spec_parse_statement(input, c);
        let next = if r.0 is Ok {
            r.1
        } else {
            spec_recover(input, r.1)
        };
        lemma_outcomes_wf(input, next);
        assert forall|i: int|
            0 <= i < spec_statement_outcomes(input, c).len() && spec_statement_outcomes(input, c)[i]
                is Ok implies crate::ast::stmt_wf(
            #[trigger] spec_statement_outcomes(input, c)[i]->Ok_0,
        ) by {
            if i > 0 {
                let j = i - 1;
                assert(spec_statement_outcomes(input, c)[i] == spec_statement_outcomes(
                    input,
                    next,
                )[j]);
            }
        }
    }
}

/// A statement list built from well-formed outcomes is well formed throughout.
proof fn lemma_program_of_wf(outs: Seq<Result<SpecStatement, ParseError>>)
    requires
        forall|i: int| 0 <= i < outs.len() && outs[i] is Ok ==> crate::ast::stmt_wf(#[trigger] outs[i]->Ok_0),
    ensures
        forall|i: int|
            0 <= i < spec_program_of(outs).len() ==> crate::ast::stmt_wf(
                #[trigger] spec_program_of(outs)[i],
            ),
    decreases outs.len(),
{
    if outs.len() > 0 {
        assert forall|i: int|
            0 <= i < outs.drop_last().len() && outs.drop_last()[i] is Ok implies crate::ast::stmt_wf(
            #[trigger] outs.drop_last()[i]->Ok_0,
        ) by {
            assert(outs.drop_last()[i] == outs[i]);
        }
        lemma_program_of_wf(outs.drop_last());
        let rest = spec_program_of(outs.drop_last());
        match outs.last() {
            Ok(s) => {
                let j = outs.len() - 1;
                assert(outs[j] is Ok && crate::ast::stmt_wf(outs[j]->Ok_0));
                assert forall|i: int| 0 <= i < spec_program_of(outs).len() implies crate::ast::stmt_wf(
                    #[trigger] spec_program_of(outs)[i],
                ) by {
                    if i < rest.len() {
                        assert(spec_program_of(outs)[i] == rest[i]);
                    } else {
                        assert(spec_program_of(outs)[i] == s);
                    }
                }
            },
            Err(_) => {},
        }
    }
}

/// The tree invariant is enforced at construction: every statement of every
/// program the parser returns is well formed — in particular, a `let`
/// statement's first field is always an identifier token, never any other
/// token kind.
pub proof fn lemma_parsed_let_binds_identifier(input: Seq<char>, c: int)
    requires
        0 <= c <= input.len(),
    ensures
        forall|i: int|
            0 <= i < spec_program_of(spec_statement_outcomes(input, c)).len()
                ==> crate::ast::stmt_wf(
                #[trigger] spec_program_of(spec_statement_outcomes(input, c))[i],
            ),
{
    lemma_outcomes_wf(input, c);
    lemma_program_of_wf(spec_statement_outcomes(input, c));
}

/// Error accumulation: a parse whose outcomes hold M well-formed statements
/// and N failures yields a program of exactly those M statements and an error
/// list of exactly those N errors, each in source order — every entry is kept,
/// and nothing else appears.
pub proof fn lemma_error_accumulation(outs: Seq<Result<SpecStatement, ParseError>>)
    ensures
        spec_program_of(outs).len() + spec_errors_of(outs).len() == outs.len(),
        spec_program_of(outs) == outs.filter(|o: Result<SpecStatement, ParseError>| o is Ok)
            .map_values(|o: Result<SpecStatement, ParseError>| o->Ok_0),
        spec_errors_of(outs) == outs.filter(|o: Result<SpecStatement, ParseError>| o is Err)
            .map_values(|o: Result<SpecStatement, ParseError>| o->Err_0),
    decreases outs.len(),
{
    reveal(Seq::filter);
    let ok_pred = |o: Result<SpecStatement, ParseError>| o is Ok;
    let err_pred = |o: Result<SpecStatement, ParseError>| o is Err;
    let ok_val = |o: Result<SpecStatement, ParseError>| o->Ok_0;
    let err_val = |o: Result<SpecStatement, ParseError>| o->Err_0;
    if outs.len() > 0 {
        let head = outs.drop_last();
        lemma_error_accumulation(head);
        match outs.last() {
            Ok(s) => {
                assert(head.filter(ok_pred).push(outs.last()).map_values(ok_val) =~= head.filter(
                    ok_pred,
                ).map_values(ok_val).push(s));
            },
            Err(e) => {
                assert(head.filter(err_pred).push(outs.last()).map_values(err_val) =~= head.filter(
                    err_pred,
                ).map_values(err_val).push(e));
            },
        }
    }
}

/// The rank of a precedence level, for comparing two levels at run time.
fn precedence_rank(p: Precedence) -> (r: u8)
    ensures
        r as int == spec_precedence_rank(p),
{
    match p {
        Precedence::Lowest => 0,
        Precedence::Equals => 1,
        Precedence::LessGreater => 2,
        Precedence::Sum => 3,
        Precedence::Product => 4,
        Precedence::Prefix => 5,
        Precedence::Call => 6,
    }
}

/// The infix side of the parse registry: the precedence level at which an
/// infix behavior is registered for the given token, or `None` when the
/// registry holds no entry. The grammar has no compound expression forms yet,
/// so no infix behavior is registered and every lookup misses.
fn infix_precedence(t: &Token) -> (r: Option<Precedence>)
    ensures
        r is None,
{
    match t {
        _ => None,
    }
}

/// Whether the registry holds an infix behavior for the current token binding
/// tighter than `min_prec` — the continuation test of the precedence climb.
/// With the infix registry empty it never does.
fn infix_binds_tighter(cur: &Result<Token, LexError>, min_prec: Precedence) -> (r: bool)
    ensures
        !r,
{
    match cur {
        Ok(t) => match infix_precedence(t) {
            Some(p) => precedence_rank(min_prec) < precedence_rank(p),
            None => false,
        },
        Err(_) => false,
    }
}

/// The parser. It takes exclusive ownership of its tokenizer, holds one token
/// of lookahead, and accumulates statement-level errors rather than stopping
/// at the first one.
pub struct Parser {
    lexer: Lexer,
    cur: Result<Token, LexError>,
    errors: Vec<ParseError>,
    cursor: Ghost<int>,
}

impl Parser {
    /// The source text being parsed.
    pub closed spec fn src(&self) -> Seq<char> {
        self.lexer.src()
    }

    /// The cursor of the current lookahead token.
    pub closed spec fn cpos(&self) -> int {
        self.cursor@
    }

    /// The errors accumulated so far, in source order.
    pub closed spec fn errs(&self) -> Seq<ParseError> {
        self.errors@
    }

    /// Validity: the lookahead token is the one drawn at the cursor, and the
    /// tokenizer stands just past it. Established by [`Parser::new`] and
    /// preserved by every method.
    pub closed spec fn wf(&self) -> bool {
        &&& self.lexer.wf()
        &&& 0 <= self.cursor@ <= self.src().len()
        &&& res_view(self.cur) == token_at(self.src(), self.cursor@)
        &&& self.lexer.cursor() == pos_after(self.src(), self.cursor@)
    }

    /// A parser over the given tokenizer, which it owns for the duration of
    /// the parse; no error has been recorded yet.
    pub fn new(l: Lexer) -> (p: Parser)
        requires
            l.wf(),
        ensures
            p.wf(),
            p.src() == l.src(),
            p.cpos() == l.cursor(),
            p.errs() == Seq::<ParseError>::empty(),
    {
        proof {
            l.lemma_cursor_in_range();
        }
        let ghost c = l.cursor();
        let mut lexer = l;
        let cur = lexer.next_token();
        proof {
            crate::lexer::lemma_step_progress(lexer.src(), c);
        }
        Parser { lexer, cur, errors: Vec::new(), cursor: Ghost(c) }
    }

    /// The errors accumulated so far, in source order: one entry for every
    /// statement that failed to parse.
    pub fn errors(&self) -> (r: &Vec<ParseError>)
        ensures
            r@ == self.errs(),
    {
        &self.errors
    }

    /// Moves the lookahead one token forward and hands the old lookahead out.
    fn bump(&mut self) -> (t: Result<Token, LexError>)
        requires
            old(self).wf(),
        ensures
            final(self).wf(),
            final(self).src() == old(self).src(),
            final(self).errs() == old(self).errs(),
            res_view(t) == token_at(old(self).src(), old(self).cpos()),
            final(self).cpos() == pos_after(old(self).src(), old(self).cpos()),
    {
        proof {
            self.lexer.lemma_cursor_in_range();
        }
        let ghost c = self.lexer.cursor();
        let mut t = self.lexer.next_token();
        core::mem::swap(&mut t, &mut self.cur);
        self.cursor = Ghost(c);
        t
    }

    /// Consumes a semicolon if one is under the cursor; the trailing semicolon
    /// of a statement is optional.
    fn eat_semicolon(&mut self)
        requires
            old(self).wf(),
        ensures
            final(self).wf(),
            final(self).src() == old(self).src(),
            final(self).errs() == old(self).errs(),
            final(self).cpos() == spec_eat_semicolon(old(self).src(), old(self).cpos()),
    {
        let is_semi = match &self.cur {
            Ok(Token::Semicolon) => true,
            _ => false,
        };
        if is_semi {
            let _ = self.bump();
        }
    }

    /// Starts an expression from the current token through the prefix side of
    /// the registry: an integer literal, a boolean literal or an identifier
    /// becomes the matching leaf; any other token is a parse error and is left
    /// under the cursor for recovery.
    fn parse_prefix(&mut self) -> (r: Result<Expression, ParseError>)
        requires
            old(self).wf(),
        ensures
            final(self).wf(),
            final(self).src() == old(self).src(),
            final(self).errs() == old(self).errs(),
            expr_res_view(r) == spec_parse_prefix(old(self).src(), old(self).cpos()).0,
            final(self).cpos() == spec_parse_prefix(old(self).src(), old(self).cpos()).1,
    {
        match &self.cur {
            Ok(Token::Integer(v)) => {
                let val = *v;
                let _ = self.bump();
                Ok(Expression::Integer(val))
            },
            Ok(Token::True) => {
                let _ = self.bump();
                Ok(Expression::Boolean(true))
            },
            Ok(Token::False) => {
                let _ = self.bump();
                Ok(Expression::Boolean(false))
            },
            Ok(Token::Identifier(_)) => {
                match self.bump() {
                    Ok(tok) => Ok(Expression::Identifier(tok)),
                    Err(_) => {
                        proof {
                            assert(false);
                        }
                        Err(ParseError::IntegerOverflow)
                    },
                }
            },
            Ok(Token::EOF) => Err(ParseError::UnexpectedEndOfInput),
            Ok(_) => Err(ParseError::UnexpectedStatementStart),
            Err(_) => Err(ParseError::IntegerOverflow),
        }
    }

    /// Parses one expression by precedence climbing: a prefix expression for
    /// the current token, then, for as long as the registry holds an infix
    /// behavior for the lookahead that binds tighter than `min_prec`, that
    /// behavior would be consumed and applied. No infix behavior is registered
    /// yet, so the climb stops at the prefix expression.
    fn parse_expression(&mut self, min_prec: Precedence) -> (r: Result<Expression, ParseError>)
        requires
            old(self).wf(),
        ensures
            final(self).wf(),
            final(self).src() == old(self).src(),
            final(self).errs() == old(self).errs(),
            expr_res_view(r) == spec_parse_expression(old(self).src(), old(self).cpos()).0,
            final(self).cpos() == spec_parse_expression(old(self).src(), old(self).cpos()).1,
    {
        let left = match self.parse_prefix() {
            Ok(e) => e,
            Err(e) => {
                return Err(e);
            },
        };
        while infix_binds_tighter(&self.cur, min_prec)
            decreases self.src().len() - self.cpos(),
        {
        }
        Ok(left)
    }

    /// Parses the rest of a let statement, the `let` keyword already consumed:
    /// an identifier must follow, then `=`, then the bound expression and an
    /// optional semicolon.
    fn parse_let_statement(&mut self) -> (r: Result<Statement, ParseError>)
        requires
            old(self).wf(),
        ensures
            final(self).wf(),
            final(self).src() == old(self).src(),
            final(self).errs() == old(self).errs(),
            stmt_res_view(r) == spec_parse_let(old(self).src(), old(self).cpos()).0,
            final(self).cpos() == spec_parse_let(old(self).src(), old(self).cpos()).1,
    {
        let is_ident = match &self.cur {
            Ok(Token::Identifier(_)) => true,
            _ => false,
        };
        if !is_ident {
            return Err(ParseError::ExpectedIdentifier);
        }
        let identifier = match self.bump() {
            Ok(t) => t,
            Err(_) => {
                proof {
                    assert(false);
                }
                return Err(ParseError::ExpectedIdentifier);
            },
        };
        let is_assign = match &self.cur {
            Ok(Token::Assign) => true,
            _ => false,
        };
        if !is_assign {
            return Err(ParseError::ExpectedAssignToken);
        }
        let _ = self.bump();
        let expr = match self.parse_expression(Precedence::Lowest) {
            Ok(e) => e,
            Err(e) => {
                return Err(e);
            },
        };
        self.eat_semicolon();
        Ok(Statement::Let(identifier, expr))
    }

    /// Parses the rest of a return statement, the `return` keyword already
    /// consumed: the returned expression, then an optional semicolon.
    fn parse_return_statement(&mut self) -> (r: Result<Statement, ParseError>)
        requires
            old(self).wf(),
        ensures
            final(self).wf(),
            final(self).src() == old(self).src(),
            final(self).errs() == old(self).errs(),
            stmt_res_view(r) == spec_parse_return(old(self).src(), old(self).cpos()).0,
            final(self).cpos() == spec_parse_return(old(self).src(), old(self).cpos()).1,
    {
        let expr = match self.parse_expression(Precedence::Lowest) {
            Ok(e) => e,
            Err(e) => {
                return Err(e);
            },
        };
        self.eat_semicolon();
        Ok(Statement::Return(expr))
    }

    /// Parses a bare expression used as a statement, with its optional
    /// trailing semicolon.
    fn parse_expression_statement(&mut self) -> (r: Result<Statement, ParseError>)
        requires
            old(self).wf(),
        ensures
            final(self).wf(),
            final(self).src() == old(self).src(),
            final(self).errs() == old(self).errs(),
            stmt_res_view(r) == spec_parse_expression_statement(old(self).src(), old(self).cpos()).0,
            final(self).cpos() == spec_parse_expression_statement(
                old(self).src(),
                old(self).cpos(),
            ).1,
    {
        let expr = match self.parse_expression(Precedence::Lowest) {
            Ok(e) => e,
            Err(e) => {
                return Err(e);
            },
        };
        self.eat_semicolon();
        Ok(Statement::Expression(expr))
    }

    /// Parses one statement, dispatched by the current token: `let` and
    /// `return` open their statement grammars, anything else is parsed as an
    /// expression statement.
    fn parse_statement(&mut self) -> (r: Result<Statement, ParseError>)
        requires
            old(self).wf(),
        ensures
            final(self).wf(),
            final(self).src() == old(self).src(),
            final(self).errs() == old(self).errs(),
            stmt_res_view(r) == spec_parse_statement(old(self).src(), old(self).cpos()).0,
            final(self).cpos() == spec_parse_statement(old(self).src(), old(self).cpos()).1,
    {
        let is_let = match &self.cur {
            Ok(Token::Let) => true,
            _ => false,
        };
        let is_return = match &self.cur {
            Ok(Token::Return) => true,
            _ => false,
        };
        if is_let {
            let _ = self.bump();
            self.parse_let_statement()
        } else if is_return {
            let _ = self.bump();
            self.parse_return_statement()
        } else {
            self.parse_expression_statement()
        }
    }

    /// After a malformed statement: skips forward to the next statement
    /// boundary — past the next semicolon, or up to a token that starts a
    /// statement, or to the end of the input — so one malformed statement
    /// never suppresses the rest of the program.
    fn recover(&mut self)
        requires
            old(self).wf(),
        ensures
            final(self).wf(),
            final(self).src() == old(self).src(),
            final(self).errs() == old(self).errs(),
            final(self).cpos() == spec_recover(old(self).src(), old(self).cpos()),
    {
        let ghost s0 = self.src();
        let ghost c0 = self.cpos();
        let ghost e0 = self.errs();
        loop
            invariant_except_break
                spec_recover(s0, self.cpos()) == spec_recover(s0, c0),
            invariant
                self.wf(),
                self.src() == s0,
                self.errs() == e0,
            ensures
                self.wf(),
                self.src() == s0,
                self.errs() == e0,
                self.cpos() == spec_recover(s0, c0),
            decreases s0.len() - self.cpos(),
        {
            let stop = match &self.cur {
                Ok(Token::EOF) => true,
                Ok(Token::Let) => true,
                Ok(Token::Return) => true,
                _ => false,
            };
            if stop {
                break ;
            }
            let is_semi = match &self.cur {
                Ok(Token::Semicolon) => true,
                _ => false,
            };
            proof {
                crate::lexer::lemma_step_progress(s0, self.cpos());
                assert(spec_recover(s0, self.cpos()) == if is_semi {
                    pos_after(s0, self.cpos())
                } else {
                    spec_recover(s0, pos_after(s0, self.cpos()))
                });
            }
            let _ = self.bump();
            if is_semi {
                break ;
            }
        }
    }

    /// Parses the whole token stream into a program: while the lookahead is
    /// not the end-of-input sentinel, one statement is parsed; a well-formed
    /// statement is appended to the program and a malformed one records its
    /// error and skips to the next statement boundary. The program holds
    /// exactly the statements that parsed and the error list exactly the
    /// failures, both in source order.
    pub fn parse_program(&mut self) -> (p: Program)
        requires
            old(self).wf(),
        ensures
            final(self).wf(),
            final(self).src() == old(self).src(),
            p@ == spec_program_of(spec_statement_outcomes(old(self).src(), old(self).cpos())),
            final(self).errs() == old(self).errs() + spec_errors_of(
                spec_statement_outcomes(old(self).src(), old(self).cpos()),
            ),
    {
        let ghost s0 = self.src();
        let ghost c0 = self.cpos();
        let ghost e0 = self.errs();
        let ghost outs0 = spec_statement_outcomes(s0, c0);
        let mut statements: Vec<Statement> = Vec::new();
        let ghost mut done: Seq<Result<SpecStatement, ParseError>> = Seq::empty();
        loop
            invariant
                self.wf(),
                self.src() == s0,
                0 <= c0 <= s0.len(),
                outs0 == spec_statement_outcomes(s0, c0),
                outs0 == done + spec_statement_outcomes(s0, self.cpos()),
                stmts_view(statements@) == spec_program_of(done),
                self.errs() == e0 + spec_errors_of(done),
            ensures
                self.wf(),
                self.src() == s0,
                stmts_view(statements@) == spec_program_of(outs0),
                self.errs() == e0 + spec_errors_of(outs0),
            decreases s0.len() - self.cpos(),
        {
            let at_eof = match &self.cur {
                Ok(Token::EOF) => true,
                _ => false,
            };
            if at_eof {
                proof {
                    assert(spec_statement_outcomes(s0, self.cpos()) =~= Seq::empty());
                    assert(outs0 =~= done);
                }
                break ;
            }
            let ghost c_before = self.cpos();
            proof {
                lemma_parse_statement_progress(s0, c_before);
            }
            let result = self.parse_statement();
            let ghost outcome = stmt_res_view(result);
            match result {
                Ok(stmt) => {
                    statements.push(stmt);
                },
                Err(e) => {
                    self.errors.push(e);
                    self.recover();
                },
            }
            proof {
                let rest = spec_statement_outcomes(s0, self.cpos());
                assert(spec_statement_outcomes(s0, c_before) =~= seq![outcome] + rest);
                assert(done + (seq![outcome] + rest) =~= (done.push(outcome)) + rest);
                assert(done.push(outcome).drop_last() =~= done);
                assert(done.push(outcome).last() == outcome);
                if outcome is Ok {
                    assert(spec_program_of(done.push(outcome)) =~= spec_program_of(done).push(
                        outcome->Ok_0,
                    ));
                    assert(spec_errors_of(done.push(outcome)) =~= spec_errors_of(done));
                    assert(stmts_view(statements@) =~= spec_program_of(done).push(outcome->Ok_0));
                } else {
                    assert(spec_program_of(done.push(outcome)) =~= spec_program_of(done));
                    assert(spec_errors_of(done.push(outcome)) =~= spec_errors_of(done).push(
                        outcome->Err_0,
                    ));
                }
                done = done.push(outcome);
            }
        }
        Program { statements }
    }
}

} // verus!
