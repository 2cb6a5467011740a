//! The tokenizer: scans a character sequence and classifies runs of
//! characters into tokens, detecting lexical errors.
//!
//! The scanner's behaviour is specified by the spec functions below
//! ([`spec_token`] and [`spec_token_end`]), which describe exactly which
//! token starts at a given offset and where the cursor stands afterwards.

use crate::token::{Token, TokenType, TokenV};
use vstd::prelude::*;
use vstd::string::StrSliceExecFns;

verus! {

/// Whether a character counts as a digit when scanning a numeric literal.
/// Left uninterpreted: it stands for exactly what `char::is_numeric` returns.
pub uninterp spec fn is_numeric_char(c: char) -> bool;

/// Whether a character counts as whitespace to be skipped between tokens.
/// Left uninterpreted: it stands for exactly what `char::is_whitespace` returns.
pub uninterp spec fn is_whitespace_char(c: char) -> bool;

/// Relies on `char::is_numeric`: whether the character lies in one of the
/// Unicode number categories. The result depends on the character alone.
#[verifier::external_body]
fn char_is_numeric(c: char) -> (r: bool)
    ensures
        r == is_numeric_char(c),
{
    c.is_numeric()
}

/// Relies on `char::is_whitespace`: whether the character has the Unicode
/// `White_Space` property. The result depends on the character alone.
#[verifier::external_body]
fn char_is_whitespace(c: char) -> (r: bool)
    ensures
        r == is_whitespace_char(c),
{
    c.is_whitespace()
}

/// Relies on `String::push`: appends the given character to the end of the
/// string.
#[verifier::external_body]
fn push_char(s: &mut String, c: char)
    ensures
        final(s)@ == old(s)@.push(c),
{
    s.push(c);
}

/// Scan state while inside one numeric literal: it only ever advances
/// `Initial -> IntNumber -> FloatNumber`, never backward, and it resets to
/// `Initial` at the start of each token-scan call.
#[derive(Clone, Copy, Debug, PartialEq, Eq, Structural)]
enum LexerStatus {
    Initial,
    IntNumber,
    FloatNumber,
}

/// Whether the cursor at offset `i` has reached end-of-input: past the last
/// character, or at a null or newline character, which terminate the stream
/// early.
pub open spec fn at_end(text: Seq<char>, i: nat) -> bool {
    i >= text.len() || text[i as int] == '\0' || text[i as int] == '\n'
}

/// The character the scanner sees at offset `i`: a null sentinel at
/// end-of-input, the character itself otherwise.
pub open spec fn peek_char(text: Seq<char>, i: nat) -> char {
    if at_end(text, i) {
        '\0'
    } else {
        text[i as int]
    }
}

/// The first offset at or after `i` that does not hold whitespace (or that
/// reaches end-of-input): where the next token starts.
pub open spec fn ws_end(text: Seq<char>, i: nat) -> nat
    decreases text.len() - i,
{
    if !at_end(text, i) && is_whitespace_char(text[i as int]) {
        ws_end(text, (i + 1) as nat)
    } else {
        i
    }
}

/// Scans the tail of a numeric literal from offset `i`, with `is_float`
/// saying whether a decimal point has already been consumed. Returns the
/// offset where scanning stops, whether the literal is well formed (a second
/// decimal point makes it malformed), and whether a decimal point was seen.
pub open spec fn scan_num(text: Seq<char>, i: nat, is_float: bool) -> (nat, bool, bool)
    decreases text.len() - i,
{
    if at_end(text, i) {
        (i, true, is_float)
    } else if is_numeric_char(text[i as int]) {
        scan_num(text, (i + 1) as nat, is_float)
    } else if text[i as int] == '.' {
        if !is_float {
            scan_num(text, (i + 1) as nat, true)
        } else {
            (i, false, is_float)
        }
    } else {
        (i, true, is_float)
    }
}

/// The message reported for every lexical error.
pub open spec fn syntax_error_text() -> Seq<char> {
    "Syntax error."@
}

/// The token that starts at offset `pos`, after skipping whitespace:
/// end-of-input yields `End`; a digit starts a numeric literal; the six
/// single-character tokens map to their kinds; a leading decimal point or any
/// other character is a lexical error.
pub open spec fn spec_token(text: Seq<char>, pos: nat) -> Result<TokenV, ()> {
    let j = ws_end(text, pos);
    if at_end(text, j) {
        Ok(TokenV::End)
    } else {
        let c = text[j as int];
        if is_numeric_char(c) {
            let sc = scan_num(text, (j + 1) as nat, false);
            if sc.1 {
                Ok(TokenV::Number(text.subrange(j as int, sc.0 as int)))
            } else {
                Err(())
            }
        } else if c == '.' {
            Err(())
        } else if c == '+' {
            Ok(TokenV::Add)
        } else if c == '-' {
            Ok(TokenV::Sub)
        } else if c == '*' {
            Ok(TokenV::Mul)
        } else if c == '/' {
            Ok(TokenV::Div)
        } else if c == '(' {
            Ok(TokenV::LeftParen)
        } else if c == ')' {
            Ok(TokenV::RightParen)
        } else {
            Err(())
        }
    }
}

/// Where the cursor stands after one token-scan call that started at `pos`.
pub open spec fn spec_token_end(text: Seq<char>, pos: nat) -> nat {
    let j = ws_end(text, pos);
    if at_end(text, j) {
        j
    } else {
        let c = text[j as int];
        if is_numeric_char(c) {
            let sc = scan_num(text, (j + 1) as nat, false);
            sc.0
        } else {
            (j + 1) as nat
        }
    }
}

/// Mathematical model of the tokenizer's persistent state: the full
/// character sequence and the current read offset. The transient scan state
/// resets at the start of every token-scan call and so is not part of it.
pub struct LexerV {
    pub text: Seq<char>,
    pub pos: nat,
}

/// The tokenizer. Its only persistent mutable state is the source cursor:
/// the character sequence and the current read offset, which never moves
/// backward.
pub struct Lexer {
    source: Vec<char>,
    current: usize,
    status: LexerStatus,
}

impl View for Lexer {
    type V = LexerV;

    closed spec fn view(&self) -> LexerV {
        LexerV { text: self.source@, pos: self.current as nat }
    }
}

/// Bounds of `ws_end`: skipping whitespace never moves backward and never
/// moves past the end of the text.
pub proof fn lemma_ws_end_bounds(text: Seq<char>, i: nat)
    requires
        i <= text.len(),
    ensures
        i <= ws_end(text, i) <= text.len(),
    decreases text.len() - i,
{
    if !at_end(text, i) && is_whitespace_char(text[i as int]) {
        lemma_ws_end_bounds(text, (i + 1) as nat);
    }
}

/// Bounds of `scan_num`: scanning a literal never moves backward and never
/// moves past the end of the text.
pub proof fn lemma_scan_num_bounds(text: Seq<char>, i: nat, is_float: bool)
    requires
        i <= text.len(),
    ensures
        i <= scan_num(text, i, is_float).0 <= text.len(),
    decreases text.len() - i,
{
    if !at_end(text, i) {
        if is_numeric_char(text[i as int]) {
            lemma_scan_num_bounds(text, (i + 1) as nat, is_float);
        } else if text[i as int] == '.' && !is_float {
            lemma_scan_num_bounds(text, (i + 1) as nat, true);
        }
    }
}

/// Bounds of one token scan: the cursor never moves backward and never moves
/// past the end of the text, and a token other than `End` consumes at least
/// one character.
pub proof fn lemma_token_end_bounds(text: Seq<char>, pos: nat)
    requires
        pos <= text.len(),
    ensures
        pos <= spec_token_end(text, pos) <= text.len(),
        spec_token(text, pos) != Ok::<TokenV, ()>(TokenV::End) ==> pos < spec_token_end(text, pos),
{
    lemma_ws_end_bounds(text, pos);
    let j = ws_end(text, pos);
    if !at_end(text, j) {
        if is_numeric_char(text[j as int]) {
            lemma_scan_num_bounds(text, (j + 1) as nat, false);
        }
    }
}

/// Law: the end marker is idempotent. Once a scan that started at `pos`
/// yields `End`, the cursor stays put, and every later scan from there
/// yields `End` again at the same cursor, rather than erroring.
pub proof fn lemma_end_idempotent(text: Seq<char>, pos: nat)
    requires
        pos <= text.len(),
        spec_token(text, pos) == Ok::<TokenV, ()>(TokenV::End),
    ensures
        spec_token_end(text, pos) <= text.len(),
        spec_token(text, spec_token_end(text, pos)) == Ok::<TokenV, ()>(TokenV::End),
        spec_token_end(text, spec_token_end(text, pos)) == spec_token_end(text, pos),
{
    lemma_ws_end_bounds(text, pos);
}

impl Lexer {
    /// The tokenizer's invariant: the read offset never passes the length of
    /// the character sequence.
    pub open spec fn wf(&self) -> bool {
        self@.pos <= self@.text.len()
    }

    /// Builds a tokenizer over the given source text, with the cursor at the
    /// start.
    pub fn new(text: &str) -> (lexer: Lexer)
        ensures
            lexer.wf(),
            lexer@.text == text@,
            lexer@.pos == 0,
    {
        let n = text.unicode_len();
        let mut source: Vec<char> = Vec::new();
        let mut i: usize = 0;
        while i < n
            invariant
                i <= n,
                n == text@.len(),
                source@ == text@.subrange(0, i as int),
            decreases n - i,
        {
            let c = text.get_char(i);
            source.push(c);
            assert(source@ =~= text@.subrange(0, i + 1));
            i = i + 1;
        }
        assert(source@ =~= text@);
        Lexer { source, current: 0, status: LexerStatus::Initial }
    }

    /// Whether the cursor has reached end-of-input: past the last character,
    /// or at a null or newline character.
    fn is_at_end(&self) -> (b: bool)
        ensures
            b == at_end(self@.text, self@.pos),
            self@.text.len() <= usize::MAX,
    {
        if self.current >= self.source.len() {
            return true;
        }
        self.source[self.current] == '\0' || self.source[self.current] == '\n'
    }

    /// The character under the cursor, or a null sentinel at end-of-input.
    fn peek(&self) -> (c: char)
        ensures
            c == peek_char(self@.text, self@.pos),
    {
        if self.is_at_end() {
            return '\0';
        }
        return self.source[self.current];
    }

    /// Consumes and returns the character under the cursor; at end-of-input
    /// it returns the null sentinel and leaves the cursor in place.
    fn advance(&mut self) -> (c: char)
        requires
            old(self).wf(),
        ensures
            final(self).wf(),
            final(self)@.text == old(self)@.text,
            final(self).status == old(self).status,
            c == peek_char(old(self)@.text, old(self)@.pos),
            at_end(old(self)@.text, old(self)@.pos) ==> final(self)@.pos == old(self)@.pos,
            !at_end(old(self)@.text, old(self)@.pos) ==> final(self)@.pos == old(self)@.pos + 1,
    {
        if self.is_at_end() {
            '\0'
        } else {
            let c = self.source[self.current];
            self.current = self.current + 1;
            c
        }
    }

    /// Moves the cursor forward to the start of the next token, skipping
    /// whitespace but never skipping across end-of-input.
    fn skip_whitespace(&mut self)
        requires
            old(self).wf(),
        ensures
            final(self).wf(),
            final(self)@.text == old(self)@.text,
            final(self).status == old(self).status,
            final(self)@.pos == ws_end(old(self)@.text, old(self)@.pos),
    {
        while !self.is_at_end() && char_is_whitespace(self.peek())
            invariant
                self.wf(),
                self@.text == old(self)@.text,
                self.status == old(self).status,
                ws_end(old(self)@.text, old(self)@.pos) == ws_end(self@.text, self@.pos),
            decreases self@.text.len() - self@.pos,
        {
            self.advance();
        }
    }

    /// Scans one token and advances the cursor past it.
    ///
    /// The result and the new cursor are exactly [`spec_token`] and
    /// [`spec_token_end`] at the old cursor: `Eof` at end-of-input (and on
    /// every call thereafter), a `Number` holding the exact substring of a
    /// well-formed numeric literal, the single-character tokens for
    /// `+ - * / ( )`, and a lexical error for a leading decimal point, a
    /// second decimal point inside one literal, or any other character.
    pub fn get_token(&mut self) -> (r: Result<Token, &'static str>)
        requires
            old(self).wf(),
        ensures
            final(self).wf(),
            final(self)@.text == old(self)@.text,
            final(self)@.pos == spec_token_end(old(self)@.text, old(self)@.pos),
            match spec_token(old(self)@.text, old(self)@.pos) {
                Ok(t) => r matches Ok(token) && token@ == t,
                Err(e) => r matches Err(m) && m@ == syntax_error_text(),
            },
    {
        self.skip_whitespace();
        if self.is_at_end() {
            return Ok(Token::new(TokenType::Eof));
        }

        let start = self.current;
        let c = self.advance();

        self.status = LexerStatus::Initial;

        if char_is_numeric(c) {
            self.number(start)
        } else if c == '.' {
            self.dot(start)
        } else if c == '+' {
            Ok(Token::new(TokenType::AddOperator))
        } else if c == '-' {
            Ok(Token::new(TokenType::SubOperator))
        } else if c == '*' {
            Ok(Token::new(TokenType::MulOperator))
        } else if c == '/' {
            Ok(Token::new(TokenType::DivOperator))
        } else if c == '(' {
            Ok(Token::new(TokenType::LeftParen))
        } else if c == ')' {
            Ok(Token::new(TokenType::RightParen))
        } else {
            Err("Syntax error.")
        }
    }

    /// A decimal point seen as the first character of a token: it is legal
    /// only as the continuation of a literal already being scanned, so with
    /// the scan state freshly reset it is always a lexical error.
    fn dot(&mut self, start: usize) -> (r: Result<Token, &'static str>)
        requires
            old(self).wf(),
            start <= old(self)@.pos,
        ensures
            final(self).wf(),
            final(self)@.text == old(self)@.text,
            if old(self).status == LexerStatus::IntNumber {
                let sc = scan_num(old(self)@.text, old(self)@.pos, true);
                final(self)@.pos == sc.0 && (if sc.1 {
                    r matches Ok(token) && token@ == TokenV::Number(
                        old(self)@.text.subrange(start as int, sc.0 as int),
                    )
                } else {
                    r matches Err(m) && m@ == syntax_error_text()
                })
            } else {
                final(self)@.pos == old(self)@.pos && (r matches Err(m) && m@ == syntax_error_text())
            },
    {
        if self.status == LexerStatus::IntNumber {
            self.status = LexerStatus::FloatNumber;
            self.number(start)
        } else {
            Err("Syntax error.")
        }
    }

    /// Scans the rest of a numeric literal whose first character sits at
    /// `start` and has already been consumed: contiguous digits, with at most
    /// one decimal point; a second decimal point is a lexical error. On
    /// success the token text is the exact substring scanned.
    fn number(&mut self, start: usize) -> (r: Result<Token, &'static str>)
        requires
            old(self).wf(),
            start <= old(self)@.pos,
        ensures
            final(self).wf(),
            final(self)@.text == old(self)@.text,
            ({
                let sc = scan_num(
                    old(self)@.text,
                    old(self)@.pos,
                    old(self).status == LexerStatus::FloatNumber,
                );
                final(self)@.pos == sc.0 && (if sc.1 {
                    r matches Ok(token) && token@ == TokenV::Number(
                        old(self)@.text.subrange(start as int, sc.0 as int),
                    )
                } else {
                    r matches Err(m) && m@ == syntax_error_text()
                })
            }),
    {
        if self.status == LexerStatus::Initial {
            self.status = LexerStatus::IntNumber;
        }
        loop
            invariant
                self.wf(),
                self@.text == old(self)@.text,
                start <= self@.pos,
                self.status == LexerStatus::IntNumber || self.status == LexerStatus::FloatNumber,
                scan_num(
                    old(self)@.text,
                    old(self)@.pos,
                    old(self).status == LexerStatus::FloatNumber,
                ) == scan_num(
                    self@.text,
                    self@.pos,
                    self.status == LexerStatus::FloatNumber,
                ),
            ensures
                self.wf(),
                self@.text == old(self)@.text,
                start <= self@.pos,
                self.status == LexerStatus::IntNumber || self.status == LexerStatus::FloatNumber,
                scan_num(
                    old(self)@.text,
                    old(self)@.pos,
                    old(self).status == LexerStatus::FloatNumber,
                ) == (
                    self@.pos,
                    true,
                    self.status == LexerStatus::FloatNumber,
                ),
            decreases self@.text.len() - self@.pos,
        {
            if self.is_at_end() {
                break;
            }
            let c = self.peek();
            if char_is_numeric(c) {
                self.advance();
            } else if c == '.' {
                if self.status == LexerStatus::IntNumber {
                    self.status = LexerStatus::FloatNumber;
                    self.advance();
                } else {
                    return Err("Syntax error.");
                }
            } else {
                break;
            }
        }

        let mut text: String = String::new();
        let mut i: usize = start;
        while i < self.current
            invariant
                self.wf(),
                start <= i <= self@.pos,
                text@ == self@.text.subrange(start as int, i as int),
            decreases self@.pos - i,
        {
            let c = self.source[i];
            push_char(&mut text, c);
            assert(text@ =~= self@.text.subrange(start as int, i + 1));
            i = i + 1;
        }
        assert(text@ =~= self@.text.subrange(start as int, self@.pos as int));

        match self.status {
            LexerStatus::IntNumber | LexerStatus::FloatNumber => {
                Ok(Token::new(TokenType::Number(text)))
            },
            LexerStatus::Initial => Err("Not a number."),
        }
    }
}

} // verus!
