//! The tokenizer: a stateful scanner over a character sequence that produces
//! one token per call, on demand, terminated by an end-of-input sentinel that
//! repeats forever once reached.
//!
//! The scanner's behaviour is pinned down by the spec function [`token_step`]:
//! from a source text and a cursor it gives both the token drawn and the
//! cursor left behind, and every executable method is proved to agree with it.

use vstd::prelude::*;
use vstd::string::StrSliceExecFns;

use crate::token::{res_view, LexError, SpecToken, Token};

verus! {

/// Whitespace skipped between tokens: space, tab and newline.
pub open spec fn is_ws_char(c: char) -> bool {
    c == ' ' || c == '\t' || c == '\n'
}

/// Whether `c` is an alphabetic character, as `char::is_alphabetic` decides
/// it: a function of the character alone.
pub uninterp spec fn alpha_char(c: char) -> bool;

/// Relies on char::is_alphabetic: whether the character is in the Unicode
/// `Alphabetic` category, which on the characters below 128 holds exactly of
/// the ASCII letters. vstd gives this function no specification.
pub assume_specification[ char::is_alphabetic ](c: char) -> (r: bool)
    ensures
        r == alpha_char(c),
        (c as u32) < 128 ==> r == (('a' <= c && c <= 'z') || ('A' <= c && c <= 'Z')),
;

/// Characters that may form an identifier or keyword run: alphabetic
/// characters and the underscore. Digits are not permitted by this grammar.
pub open spec fn is_letter_char(c: char) -> bool {
    ('a' <= c && c <= 'z') || ('A' <= c && c <= 'Z') || c == '_' || ((c as u32) >= 128
        && alpha_char(c))
}

/// Decimal digits, the only characters of an integer run.
pub open spec fn is_digit_char(c: char) -> bool {
    '0' <= c && c <= '9'
}

/// The numeric value of a decimal digit.
pub open spec fn digit_value(c: char) -> int {
    c as int - '0' as int
}

/// The first position at or after `pos` that does not hold whitespace.
pub open spec fn skip_ws(input: Seq<char>, pos: int) -> int
    decreases input.len() - pos when 0 <= pos <= input.len()
{
    if pos < input.len() && is_ws_char(input[pos]) {
        skip_ws(input, pos + 1)
    } else {
        pos
    }
}

/// The end of the maximal identifier run beginning at `pos`: the first
/// position at or after `pos` that does not hold a letter or underscore.
pub open spec fn ident_end(input: Seq<char>, pos: int) -> int
    decreases input.len() - pos when 0 <= pos <= input.len()
{
    if pos < input.len() && is_letter_char(input[pos]) {
        ident_end(input, pos + 1)
    } else {
        pos
    }
}

/// The end of the maximal digit run beginning at `pos`.
pub open spec fn digits_end(input: Seq<char>, pos: int) -> int
    decreases input.len() - pos when 0 <= pos <= input.len()
{
    if pos < input.len() && is_digit_char(input[pos]) {
        digits_end(input, pos + 1)
    } else {
        pos
    }
}

/// The value of a run of decimal digits read in base ten.
pub open spec fn digits_value(s: Seq<char>) -> int
    decreases s.len(),
{
    if s.len() == 0 {
        0
    } else {
        10 * digits_value(s.drop_last()) + digit_value(s.last())
    }
}

/// The keyword table: a full identifier run is looked up here, and unmatched
/// runs become identifiers.
pub open spec fn spec_lookup_identifier(s: Seq<char>) -> SpecToken {
    if s == seq!['f', 'n'] {
        SpecToken::Function
    } else if s == seq!['l', 'e', 't'] {
        SpecToken::Let
    } else if s == seq!['r', 'e', 't', 'u', 'r', 'n'] {
        SpecToken::Return
    } else if s == seq!['t', 'r', 'u', 'e'] {
        SpecToken::True
    } else if s == seq!['f', 'a', 'l', 's', 'e'] {
        SpecToken::False
    } else if s == seq!['i', 'f'] {
        SpecToken::If
    } else if s == seq!['e', 'l', 's', 'e'] {
        SpecToken::Else
    } else {
        SpecToken::Identifier(s)
    }
}

/// The token found at position `q`, with whitespace already skipped, and the
/// cursor position just past it.
pub open spec fn token_after_ws(input: Seq<char>, q: int) -> (Result<SpecToken, LexError>, int) {
    if q >= input.len() {
        (Ok(SpecToken::EOF), q)
    } else {
        let c = input[q];
        if c == '=' {
            if q + 1 < input.len() && input[q + 1] == '=' {
                (Ok(SpecToken::Equal), q + 2)
            } else {
                (Ok(SpecToken::Assign), q + 1)
            }
        } else if c == '!' {
            if q + 1 < input.len() && input[q + 1] == '=' {
                (Ok(SpecToken::NotEqual), q + 2)
            } else {
                (Ok(SpecToken::Bang), q + 1)
            }
        } else if c == '+' {
            (Ok(SpecToken::Plus), q + 1)
        } else if c == '-' {
            (Ok(SpecToken::Minus), q + 1)
        } else if c == ',' {
            (Ok(SpecToken::Comma), q + 1)
        } else if c == ';' {
            (Ok(SpecToken::Semicolon), q + 1)
        } else if c == '(' {
            (Ok(SpecToken::LParen), q + 1)
        } else if c == ')' {
            (Ok(SpecToken::RParen), q + 1)
        } else if c == '{' {
            (Ok(SpecToken::LBrace), q + 1)
        } else if c == '}' {
            (Ok(SpecToken::RBrace), q + 1)
        } else if c == '/' {
            (Ok(SpecToken::Slash), q + 1)
        } else if c == '*' {
            (Ok(SpecToken::Asterisk), q + 1)
        } else if c == '<' {
            (Ok(SpecToken::LT), q + 1)
        } else if c == '>' {
            (Ok(SpecToken::GT), q + 1)
        } else if is_letter_char(c) {
            let e = ident_end(input, q);
            (Ok(spec_lookup_identifier(input.subrange(q, e))), e)
        } else if is_digit_char(c) {
            let e = digits_end(input, q);
            let v = digits_value(input.subrange(q, e));
            if v <= i32::MAX {
                (Ok(SpecToken::Integer(v)), e)
            } else {
                (Err(LexError::IntegerOverflow), e)
            }
        } else {
            (Ok(SpecToken::Illegal(seq![c])), q + 1)
        }
    }
}

/// One draw from the tokenizer: skip whitespace, then read one token. Returns
/// the token and the cursor position left behind.
pub open spec fn token_step(input: Seq<char>, pos: int) -> (Result<SpecToken, LexError>, int) {
    token_after_ws(input, skip_ws(input, pos))
}

/// The token drawn at cursor position `pos`.
pub open spec fn token_at(input: Seq<char>, pos: int) -> Result<SpecToken, LexError> {
    token_step(input, pos).0
}

/// The cursor position after one draw at position `pos`.
pub open spec fn pos_after(input: Seq<char>, pos: int) -> int {
    token_step(input, pos).1
}

/// Skipping whitespace never moves the cursor backwards nor past the end.
pub proof fn lemma_skip_ws_bounds(input: Seq<char>, pos: int)
    requires
        0 <= pos <= input.len(),
    ensures
        pos <= skip_ws(input, pos) <= input.len(),
    decreases input.len() - pos,
{
    if pos < input.len() && is_ws_char(input[pos]) {
        lemma_skip_ws_bounds(input, pos + 1);
    }
}

/// An identifier run ends at or after where it begins, within the input.
pub proof fn lemma_ident_end_bounds(input: Seq<char>, pos: int)
    requires
        0 <= pos <= input.len(),
    ensures
        pos <= ident_end(input, pos) <= input.len(),
    decreases input.len() - pos,
{
    if pos < input.len() && is_letter_char(input[pos]) {
        lemma_ident_end_bounds(input, pos + 1);
    }
}

/// A digit run ends at or after where it begins, within the input.
pub proof fn lemma_digits_end_bounds(input: Seq<char>, pos: int)
    requires
        0 <= pos <= input.len(),
    ensures
        pos <= digits_end(input, pos) <= input.len(),
    decreases input.len() - pos,
{
    if pos < input.len() && is_digit_char(input[pos]) {
        lemma_digits_end_bounds(input, pos + 1);
    }
}

/// One draw from a valid cursor leaves a valid cursor; any draw other than the
/// end-of-input sentinel consumes at least one character; and the sentinel is
/// only drawn with the cursor left at the very end of the input.
pub proof fn lemma_step_progress(input: Seq<char>, pos: int)
    requires
        0 <= pos <= input.len(),
    ensures
        pos <= pos_after(input, pos) <= input.len(),
        token_at(input, pos) != Ok::<SpecToken, LexError>(SpecToken::EOF) ==> pos_after(
            input,
            pos,
        ) >= pos + 1,
        token_at(input, pos) == Ok::<SpecToken, LexError>(SpecToken::EOF) ==> pos_after(
            input,
            pos,
        ) == input.len(),
{
    lemma_skip_ws_bounds(input, pos);
    let q = skip_ws(input, pos);
    if q < input.len() {
        let c = input[q];
        if is_letter_char(c) {
            lemma_ident_end_bounds(input, q + 1);
            assert(ident_end(input, q) == ident_end(input, q + 1));
        } else if is_digit_char(c) {
            lemma_digits_end_bounds(input, q + 1);
            assert(digits_end(input, q) == digits_end(input, q + 1));
        }
    }
}

/// The cursor at the end of the input only ever yields the sentinel, staying
/// where it is.
pub proof fn lemma_eof_fixed_point(input: Seq<char>)
    ensures
        token_at(input, input.len() as int) == Ok::<SpecToken, LexError>(SpecToken::EOF),
        pos_after(input, input.len() as int) == input.len(),
{
    assert(skip_ws(input, input.len() as int) == input.len());
}

/// Characters that begin some recognized lexical rule: an operator or
/// punctuation character, a letter or underscore, or a decimal digit.
pub open spec fn starts_token(c: char) -> bool {
    ||| c == '=' || c == '!' || c == '+' || c == '-' || c == ',' || c == ';'
    ||| c == '(' || c == ')' || c == '{' || c == '}' || c == '/' || c == '*'
    ||| c == '<' || c == '>'
    ||| is_letter_char(c)
    ||| is_digit_char(c)
}

/// The cursor position reached after `n` draws that started at position `pos`.
pub open spec fn cursor_after_calls(input: Seq<char>, pos: int, n: nat) -> int
    decreases n,
{
    if n == 0 {
        pos
    } else {
        pos_after(input, cursor_after_calls(input, pos, (n - 1) as nat))
    }
}

/// Repeated draws from the start of the input stay within it, and each draw
/// either consumes at least one character or has already reached the end.
pub proof fn lemma_cursor_after_calls_bounds(input: Seq<char>, n: nat)
    ensures
        0 <= cursor_after_calls(input, 0, n) <= input.len(),
        cursor_after_calls(input, 0, n) >= n || cursor_after_calls(input, 0, n) == input.len(),
    decreases n,
{
    if n > 0 {
        lemma_cursor_after_calls_bounds(input, (n - 1) as nat);
        let prev = cursor_after_calls(input, 0, (n - 1) as nat);
        lemma_step_progress(input, prev);
        lemma_eof_fixed_point(input);
    }
}

/// Tokenization terminates: from the start of any finite input, at most
/// `input.len() + 1` draws reach the end-of-input sentinel, and every draw
/// from then on returns the sentinel again.
pub proof fn lemma_tokenizer_termination(input: Seq<char>, n: nat)
    requires
        n >= input.len(),
    ensures
        token_at(input, cursor_after_calls(input, 0, n)) == Ok::<SpecToken, LexError>(
            SpecToken::EOF,
        ),
        cursor_after_calls(input, 0, n) == input.len(),
{
    lemma_cursor_after_calls_bounds(input, n);
    lemma_eof_fixed_point(input);
}

/// Tokenization is deterministic: the token drawn at each step, and the cursor
/// it leaves behind, are functions of the input text alone, so two runs over
/// equal inputs agree at every draw.
pub proof fn lemma_tokenization_deterministic(a: Seq<char>, b: Seq<char>, n: nat)
    requires
        a == b,
    ensures
        cursor_after_calls(a, 0, n) == cursor_after_calls(b, 0, n),
        token_at(a, cursor_after_calls(a, 0, n)) == token_at(b, cursor_after_calls(b, 0, n)),
{
}

/// A digit run is never silently corrupted: when its value fits the numeric
/// type the exact value is returned, and otherwise the draw reports an
/// overflow — never a wrapped or truncated token — while the cursor still
/// moves past the whole run.
pub proof fn lemma_no_silent_corruption(input: Seq<char>, pos: int)
    requires
        0 <= pos <= input.len(),
        skip_ws(input, pos) < input.len(),
        is_digit_char(input[skip_ws(input, pos)]),
    ensures
        ({
            let q = skip_ws(input, pos);
            let v = digits_value(input.subrange(q, digits_end(input, q)));
            &&& v <= i32::MAX ==> token_at(input, pos) == Ok::<SpecToken, LexError>(
                SpecToken::Integer(v),
            )
            &&& v > i32::MAX ==> token_at(input, pos) == Err::<SpecToken, LexError>(
                LexError::IntegerOverflow,
            )
            &&& pos_after(input, pos) == digits_end(input, q)
        }),
{
}

/// An unrecognized character is contained: the draw that meets it yields
/// exactly one `Illegal` token carrying that single character, and scanning
/// continues just past it.
pub proof fn lemma_illegal_containment(input: Seq<char>, pos: int)
    requires
        0 <= pos <= input.len(),
        skip_ws(input, pos) < input.len(),
        !starts_token(input[skip_ws(input, pos)]),
    ensures
        token_at(input, pos) == Ok::<SpecToken, LexError>(
            SpecToken::Illegal(seq![input[skip_ws(input, pos)]]),
        ),
        pos_after(input, pos) == skip_ws(input, pos) + 1,
{
}

/// Whether `c` is skipped as whitespace.
fn is_ws(c: char) -> (r: bool)
    ensures
        r == is_ws_char(c),
{
    c == ' ' || c == '\t' || c == '\n'
}

/// Whether `c` may appear in an identifier or keyword run.
fn is_letter(c: char) -> (r: bool)
    ensures
        r == is_letter_char(c),
{
    c.is_alphabetic() || c == '_'
}

/// Whether `c` is a decimal digit.
fn is_digit(c: char) -> (r: bool)
    ensures
        r == is_digit_char(c),
{
    let u = c as u32;
    48 <= u && u <= 57
}

/// The numeric value of the decimal digit `c`.
fn digit_of(c: char) -> (d: i32)
    requires
        is_digit_char(c),
    ensures
        0 <= d <= 9,
        d as int == digit_value(c),
{
    ((c as u32) - 48) as i32
}

/// The tokenizer. It owns the source text and an internal cursor; each call to
/// [`Lexer::next_token`] advances the cursor over one token, and the cursor is
/// never moved backwards.
#[derive(Debug)]
pub struct Lexer {
    input: String,
    position: usize,
    length: usize,
}

impl Lexer {
    /// The source text being scanned, as a character sequence.
    pub closed spec fn src(&self) -> Seq<char> {
        self.input@
    }

    /// The cursor: the position from which the next token will be drawn.
    pub closed spec fn cursor(&self) -> int {
        self.position as int
    }

    /// Validity: the cursor stays within the input, and the cached length is
    /// the length of the input. Established by [`Lexer::new`] and preserved by
    /// every method.
    pub closed spec fn wf(&self) -> bool {
        &&& self.length == self.input@.len()
        &&& self.position <= self.length
    }

    /// A valid tokenizer's cursor lies within its input.
    pub proof fn lemma_cursor_in_range(&self)
        requires
            self.wf(),
        ensures
            0 <= self.cursor() <= self.src().len(),
    {
    }

    /// A tokenizer over `input` with the cursor at the start.
    pub fn new(input: &str) -> (l: Lexer)
        ensures
            l.wf(),
            l.src() == input@,
            l.cursor() == 0,
    {
        let length = input.unicode_len();
        Lexer { input: input.to_owned(), position: 0, length }
    }

    /// The character under the cursor, if any.
    fn current_char(&self) -> (c: Option<char>)
        requires
            self.wf(),
        ensures
            c == (if self.cursor() < self.src().len() {
                Some(self.src()[self.cursor()])
            } else {
                None::<char>
            }),
    {
        if self.position < self.length {
            Some(self.input.as_str().get_char(self.position))
        } else {
            None
        }
    }

    /// One character of lookahead: the character just after the cursor, if
    /// any, without consuming anything.
    fn peek_char(&self) -> (c: Option<char>)
        requires
            self.wf(),
        ensures
            c == (if self.cursor() + 1 < self.src().len() {
                Some(self.src()[self.cursor() + 1])
            } else {
                None::<char>
            }),
    {
        if self.position < self.length && self.length - self.position > 1 {
            Some(self.input.as_str().get_char(self.position + 1))
        } else {
            None
        }
    }

    /// Advances the cursor one character, staying put at the end of the input.
    fn read_char(&mut self)
        requires
            old(self).wf(),
        ensures
            final(self).wf(),
            final(self).src() == old(self).src(),
            old(self).cursor() < final(self).src().len() ==> final(self).cursor() == old(self).cursor() + 1,
            old(self).cursor() == final(self).src().len() ==> final(self).cursor() == old(self).cursor(),
    {
        if self.position < self.length {
            self.position = self.position + 1;
        }
    }

    /// Consumes the lookahead character exactly when it equals `c`.
    fn match_next_char(&mut self, c: char) -> (matched: bool)
        requires
            old(self).wf(),
        ensures
            final(self).wf(),
            final(self).src() == old(self).src(),
            matched == (old(self).cursor() + 1 < old(self).src().len() && old(self).src()[old(
                self,
            ).cursor() + 1] == c),
            matched ==> final(self).cursor() == old(self).cursor() + 1,
            !matched ==> final(self).cursor() == old(self).cursor(),
    {
        match self.peek_char() {
            Some(cc) => {
                if cc == c {
                    self.read_char();
                    true
                } else {
                    false
                }
            },
            None => false,
        }
    }

    /// Moves the cursor past any whitespace; whitespace is never emitted as a
    /// token.
    fn skip_whitespace(&mut self)
        requires
            old(self).wf(),
        ensures
            final(self).wf(),
            final(self).src() == old(self).src(),
            final(self).cursor() == skip_ws(old(self).src(), old(self).cursor()),
    {
        let ghost s0 = self.src();
        let ghost c0 = self.cursor();
        loop
            invariant
                self.wf(),
                self.src() == s0,
                0 <= self.cursor() <= s0.len(),
                skip_ws(s0, self.cursor()) == skip_ws(s0, c0),
            ensures
                self.wf(),
                self.src() == s0,
                self.cursor() == skip_ws(s0, c0),
            decreases s0.len() - self.cursor(),
        {
            match self.current_char() {
                Some(ch) => {
                    if is_ws(ch) {
                        self.read_char();
                    } else {
                        break ;
                    }
                },
                None => {
                    break ;
                },
            }
        }
    }

    /// Reads the maximal identifier run beginning at the cursor and returns
    /// its text.
    fn read_identifier(&mut self) -> (s: String)
        requires
            old(self).wf(),
            old(self).cursor() < old(self).src().len(),
            is_letter_char(old(self).src()[old(self).cursor()]),
        ensures
            final(self).wf(),
            final(self).src() == old(self).src(),
            final(self).cursor() == ident_end(old(self).src(), old(self).cursor()),
            s@ == old(self).src().subrange(old(self).cursor(), final(self).cursor()),
    {
        let ghost s0 = self.src();
        let ghost c0 = self.cursor();
        let start = self.position;
        loop
            invariant
                self.wf(),
                self.src() == s0,
                0 <= c0 <= self.cursor() <= s0.len(),
                start == c0,
                ident_end(s0, self.cursor()) == ident_end(s0, c0),
            ensures
                self.wf(),
                self.src() == s0,
                self.cursor() == ident_end(s0, c0),
                start == c0,
            decreases s0.len() - self.cursor(),
        {
            match self.current_char() {
                Some(ch) => {
                    if is_letter(ch) {
                        self.read_char();
                    } else {
                        break ;
                    }
                },
                None => {
                    break ;
                },
            }
        }
        let sub = self.input.as_str().substring_char(start, self.position);
        sub.to_owned()
    }

    /// Looks a full identifier run up against the keyword table; unmatched
    /// runs become identifiers.
    fn lookup_identifier(&self, s: String) -> (t: Token)
        ensures
            t@ == spec_lookup_identifier(s@),
    {
        proof {
            reveal_strlit("fn");
            reveal_strlit("let");
            reveal_strlit("return");
            reveal_strlit("true");
            reveal_strlit("false");
            reveal_strlit("if");
            reveal_strlit("else");
            assert("fn"@ =~= seq!['f', 'n']);
            assert("let"@ =~= seq!['l', 'e', 't']);
            assert("return"@ =~= seq!['r', 'e', 't', 'u', 'r', 'n']);
            assert("true"@ =~= seq!['t', 'r', 'u', 'e']);
            assert("false"@ =~= seq!['f', 'a', 'l', 's', 'e']);
            assert("if"@ =~= seq!['i', 'f']);
            assert("else"@ =~= seq!['e', 'l', 's', 'e']);
        }
        if s == "fn".to_owned() {
            Token::Function
        } else if s == "let".to_owned() {
            Token::Let
        } else if s == "return".to_owned() {
            Token::Return
        } else if s == "true".to_owned() {
            Token::True
        } else if s == "false".to_owned() {
            Token::False
        } else if s == "if".to_owned() {
            Token::If
        } else if s == "else".to_owned() {
            Token::Else
        } else {
            Token::Identifier(s)
        }
    }

    /// Reads the maximal digit run beginning at the cursor and parses it in
    /// base ten. A run whose value does not fit in the numeric type is
    /// reported as an overflow — never wrapped or truncated — and the cursor
    /// still moves past the whole run.
    fn read_number(&mut self) -> (r: Result<i32, LexError>)
        requires
            old(self).wf(),
            old(self).cursor() < old(self).src().len(),
            is_digit_char(old(self).src()[old(self).cursor()]),
        ensures
            final(self).wf(),
            final(self).src() == old(self).src(),
            final(self).cursor() == digits_end(old(self).src(), old(self).cursor()),
            ({
                let v = digits_value(
                    old(self).src().subrange(old(self).cursor(), final(self).cursor()),
                );
                &&& 0 <= v
                &&& if v <= i32::MAX {
                    r == Ok::<i32, LexError>(v as i32)
                } else {
                    r == Err::<i32, LexError>(LexError::IntegerOverflow)
                }
            }),
    {
        let ghost s0 = self.src();
        let ghost c0 = self.cursor();
        let mut val: i32 = 0;
        let mut overflowed = false;
        loop
            invariant
                self.wf(),
                self.src() == s0,
                0 <= c0 <= self.cursor() <= s0.len(),
                digits_end(s0, self.cursor()) == digits_end(s0, c0),
                !overflowed ==> 0 <= val && val as int == digits_value(
                    s0.subrange(c0, self.cursor()),
                ),
                overflowed ==> digits_value(s0.subrange(c0, self.cursor())) > i32::MAX,
            ensures
                self.wf(),
                self.src() == s0,
                self.cursor() == digits_end(s0, c0),
                !overflowed ==> 0 <= val && val as int == digits_value(
                    s0.subrange(c0, self.cursor()),
                ),
                overflowed ==> digits_value(s0.subrange(c0, self.cursor())) > i32::MAX,
            decreases s0.len() - self.cursor(),
        {
            let next = self.current_char();
            let ch = match next {
                Some(ch) => {
                    if is_digit(ch) {
                        ch
                    } else {
                        break ;
                    }
                },
                None => {
                    break ;
                },
            };
            let ghost prefix = s0.subrange(c0, self.cursor());
            let d = digit_of(ch);
            if !overflowed {
                if val <= (i32::MAX - d) / 10 {
                    assert(val * 10 + d <= i32::MAX) by {
                        assert(10 * ((i32::MAX - d) as int / 10) <= i32::MAX - d);
                        assert(val * 10 <= 10 * ((i32::MAX - d) as int / 10)) by (nonlinear_arith)
                            requires
                                0 <= val <= (i32::MAX - d) as int / 10,
                        ;
                    }
                    val = val * 10 + d;
                } else {
                    assert(val as int * 10 + d > i32::MAX) by {
                        assert(10 * ((i32::MAX - d) as int / 10) + 9 >= i32::MAX - d);
                        assert(val as int * 10 >= 10 * ((i32::MAX - d) as int / 10 + 1))
                            by (nonlinear_arith)
                            requires
                                val as int >= (i32::MAX - d) as int / 10 + 1,
                        ;
                    }
                    overflowed = true;
                }
            } else {
                assert(digits_value(prefix) * 10 + d > i32::MAX) by (nonlinear_arith)
                    requires
                        digits_value(prefix) > i32::MAX,
                        d >= 0,
                ;
            }
            self.read_char();
            proof {
                let prefix2 = s0.subrange(c0, self.cursor());
                assert(prefix2.drop_last() =~= prefix);
                assert(prefix2.last() == ch);
            }
        }
        if overflowed {
            Err(LexError::IntegerOverflow)
        } else {
            Ok(val)
        }
    }

    /// Draws the next token, advancing the cursor past it. Illegal characters
    /// surface as `Token::Illegal` values, not failures; the only failure is a
    /// digit run whose value does not fit. At the end of the input this
    /// returns the sentinel, again and again.
    pub fn next_token(&mut self) -> (r: Result<Token, LexError>)
        requires
            old(self).wf(),
        ensures
            final(self).wf(),
            final(self).src() == old(self).src(),
            res_view(r) == token_at(old(self).src(), old(self).cursor()),
            final(self).cursor() == pos_after(old(self).src(), old(self).cursor()),
    {
        self.skip_whitespace();
        proof {
            lemma_skip_ws_bounds(old(self).src(), old(self).cursor());
        }
        let tok: Token = match self.current_char() {
            None => {
                return Ok(Token::EOF);
            },
            Some(t) => {
                if t == '+' {
                    Token::Plus
                } else if t == '-' {
                    Token::Minus
                } else if t == ',' {
                    Token::Comma
                } else if t == ';' {
                    Token::Semicolon
                } else if t == '(' {
                    Token::LParen
                } else if t == ')' {
                    Token::RParen
                } else if t == '{' {
                    Token::LBrace
                } else if t == '}' {
                    Token::RBrace
                } else if t == '/' {
                    Token::Slash
                } else if t == '*' {
                    Token::Asterisk
                } else if t == '<' {
                    Token::LT
                } else if t == '>' {
                    Token::GT
                } else if t == '!' {
                    if self.match_next_char('=') {
                        Token::NotEqual
                    } else {
                        Token::Bang
                    }
                } else if t == '=' {
                    if self.match_next_char('=') {
                        Token::Equal
                    } else {
                        Token::Assign
                    }
                } else if is_letter(t) {
                    let s = self.read_identifier();
                    return Ok(self.lookup_identifier(s));
                } else if is_digit(t) {
                    return match self.read_number() {
                        Ok(v) => Ok(Token::Integer(v)),
                        Err(e) => Err(e),
                    };
                } else {
                    let ghost q = self.cursor();
                    let sub = self.input.as_str().substring_char(self.position, self.position + 1);
                    let s = sub.to_owned();
                    proof {
                        assert(s@ =~= seq![self.src()[q]]);
                    }
                    Token::Illegal(s)
                }
            },
        };
        self.read_char();
        Ok(tok)
    }
}

} // verus!
