//! The engine: one pass over the text that yields its statements one by one.
use crate::chars::{alpha, blank, digit, name_char, number, word_char};
use crate::cursor::Cursor;
use crate::grammar::{
    at, block_comment_end, delimited_end, dollar_lexeme, is_operator_char, is_operator_pair,
    is_radix_char, leaf, lemma_lexeme_bounds, lemma_name_end_bounds, lemma_scan_bounds,
    lemma_statement_bounds, lemma_word_end_bounds, lexeme, line_end, marker_lexeme, name_end,
    number_lexeme, numeric_end, operator_len, quoted_end, scan, span_view, spans_view,
    starts_with_at, statement_at, statements_from, word_end, word_lexeme, Radix, Span,
};
use crate::options::{Error, Options};
use crate::statement::Statement;
use crate::text::{byte_len, chars_of, end_position_at, offset_at, slice};
use crate::tokens::{Token, TokenKind, TokenValue, Tokens};
use crate::Position;
use vstd::prelude::*;

verus! {

/// Whether a numeric constant in base `radix` may hold `c` behind its first
/// characters.
fn radix_char(radix: Radix, c: char) -> (r: bool)
    ensures
        r == is_radix_char(radix, c),
{
    c == '_' || match radix {
        Radix::Binary => c == '0' || c == '1',
        Radix::Octal => '0' <= c && c <= '7',
        Radix::Decimal => digit(c) || c == '.' || c == 'e' || c == 'E',
        Radix::Hexadecimal => digit(c) || ('a' <= c && c <= 'f') || ('A' <= c && c <= 'F'),
    }
}

/// Whether `a` followed by `b` is an operator of two characters.
fn operator_pair(a: char, b: char) -> (r: bool)
    ensures
        r == is_operator_pair(a, b),
{
    (a == '!' && b == '=') || (a == '>' && b == '=') || (a == '<' && b == '=') || (a == '<' && b
        == '>') || (a == '|' && b == '|') || (a == '<' && b == '<') || (a == '>' && b == '>') || (a
        == ':' && b == ':') || (a == '~' && b == '*') || (a == '!' && b == '~')
}

/// Whether `a` is an operator of one character.
fn operator_char(a: char) -> (r: bool)
    ensures
        r == is_operator_char(a),
{
    a == '+' || a == '-' || a == '*' || a == '/' || a == '=' || a == '>' || a == '<' || a == '!'
        || a == '%' || a == '~' || a == '&' || a == '|' || a == '^'
}

/// A text with a cursor in it, from which the statements are taken one after
/// the other.
pub struct Tokenizer<'s> {
    /// The whole text.
    input: &'s str,
    /// The characters of the text.
    chars: Vec<char>,
    /// The characters of the statement delimiter.
    delimiter: Vec<char>,
    /// The length of the text in bytes.
    len: usize,
    /// What has been read so far.
    cursor: Cursor,
}

impl<'s> Tokenizer<'s> {
    /// The characters of the text.
    pub closed spec fn source(&self) -> Seq<char> {
        self.chars@
    }

    /// The characters of the statement delimiter.
    pub closed spec fn separator(&self) -> Seq<char> {
        self.delimiter@
    }

    /// The number of characters read so far.
    pub closed spec fn position(&self) -> int {
        self.cursor.index as int
    }

    /// The text that is being read.
    pub closed spec fn text(&self) -> &'s str {
        self.input
    }

    /// Whether the cursor knows its coordinates in the text.
    pub closed spec fn cursor_wf(&self) -> bool {
        &&& self.chars@ == self.input@
        &&& self.len == offset_at(self.chars@, self.chars@.len() as int)
        &&& self.cursor.wf(self.chars@)
    }

    /// What holds of every tokenizer: its cursor is in its text and knows
    /// where it is, the text fits in memory, and the delimiter is not empty.
    pub open spec fn wf(&self) -> bool {
        &&& self.cursor_wf()
        &&& self.source() == self.text()@
        &&& self.separator().len() > 0
        &&& 0 <= self.position() <= self.source().len()
        &&& offset_at(self.source(), self.source().len() as int) <= usize::MAX
    }

    /// Whether this tokenizer reads the same text as `other`, with the same
    /// delimiter.
    pub open spec fn same_text(&self, other: &Self) -> bool {
        &&& self.text() == other.text()
        &&& self.source() == other.source()
        &&& self.separator() == other.separator()
    }

    /// Whether this is the tokenizer `before` after it has read up to the
    /// character at index `to`.
    pub open spec fn moved(&self, before: &Self, to: int) -> bool {
        &&& self.wf()
        &&& self.same_text(before)
        &&& self.position() == to
    }

    /// A tokenizer at the start of `input`. It is refused if and only if the
    /// statement delimiter is empty.
    pub fn new(input: &'s str, options: Options) -> (r: Result<Self, Error>)
        ensures
            r is Err <==> options.statement_delimiter@.len() == 0,
            r is Err ==> r->Err_0 == Error::EmptyStatementDelimiter,
            r is Ok ==> {
                &&& r->Ok_0.wf()
                &&& r->Ok_0.text() == input
                &&& r->Ok_0.source() == input@
                &&& r->Ok_0.separator() == options.statement_delimiter@
                &&& r->Ok_0.position() == 0
            },
    {
        let delimiter = chars_of(options.statement_delimiter.as_str());
        if delimiter.len() == 0 {
            return Err(Error::EmptyStatementDelimiter);
        }
        let chars = chars_of(input);
        let len = byte_len(input);
        Ok(Tokenizer { input, chars, delimiter, len, cursor: Cursor::start() })
    }

    /// The character at the cursor, if the text has not ended there.
    pub open spec fn next_char(&self) -> Option<char> {
        if self.position() < self.source().len() {
            Some(self.source()[self.position()])
        } else {
            None
        }
    }

    /// The character at the cursor, if the text has not ended there.
    fn peek(&self) -> (r: Option<char>)
        requires
            self.wf(),
        ensures
            r == self.next_char(),
    {
        if self.cursor.index < self.chars.len() {
            Some(self.chars[self.cursor.index])
        } else {
            None
        }
    }

    /// The character `n` characters behind the cursor, if the text has not
    /// ended before it.
    fn peek_at(&self, n: usize) -> (r: Option<char>)
        requires
            self.wf(),
        ensures
            r == if self.position() + n < self.source().len() {
                Some(self.source()[self.position() + n])
            } else {
                None
            },
    {
        if n < self.chars.len() - self.cursor.index {
            Some(self.chars[self.cursor.index + n])
        } else {
            None
        }
    }

    /// Reads the character at the cursor and moves behind it; `None` at the
    /// end of the text.
    fn get_next_char(&mut self) -> (r: Option<char>)
        requires
            old(self).wf(),
        ensures
            r == old(self).next_char(),
            final(self).moved(
                old(self),
                if r is Some {
                    old(self).position() + 1
                } else {
                    old(self).position()
                },
            ),
    {
        if self.cursor.index < self.chars.len() {
            let c = self.chars[self.cursor.index];
            self.cursor.advance(c, Ghost(self.chars@));
            Some(c)
        } else {
            None
        }
    }

    /// Moves the cursor `n` characters forward, or to the end of the text if
    /// that is nearer.
    fn forward_iter(&mut self, n: usize)
        requires
            old(self).wf(),
        ensures
            final(self).moved(
                old(self),
                if old(self).position() + n <= old(self).source().len() {
                    old(self).position() + n
                } else {
                    old(self).source().len() as int
                },
            ),
    {
        let mut left: usize = n;
        while left > 0 && self.cursor.index < self.chars.len()
            invariant
                self.wf(),
                self.same_text(old(self)),
                left <= n,
                self.position() == old(self).position() + (n - left),
            decreases left,
        {
            self.get_next_char();
            left -= 1;
        }
    }

    /// Whether `pattern` stands at the cursor.
    fn check_delimiter(&self, pattern: &Vec<char>) -> (r: bool)
        requires
            self.wf(),
        ensures
            r == starts_with_at(self.source(), self.position(), pattern@),
    {
        if pattern.len() > self.chars.len() - self.cursor.index {
            return false;
        }
        let mut k: usize = 0;
        while k < pattern.len()
            invariant
                self.wf(),
                k <= pattern.len(),
                self.cursor.index + pattern.len() <= self.chars.len(),
                forall|j: int| 0 <= j < k ==> self.source()[self.position() + j] == pattern@[j],
            decreases pattern.len() - k,
        {
            if self.chars[self.cursor.index + k] != pattern[k] {
                return false;
            }
            k += 1;
        }
        true
    }

    /// The part of the text that has not been read.
    pub fn remaining_input(&self) -> (r: &'s str)
        requires
            self.wf(),
        ensures
            r@ == self.source().subrange(self.position(), self.source().len() as int),
    {
        slice(
            self.input,
            self.cursor.offset,
            self.len,
            Ghost(self.cursor.index as int),
            Ghost(self.chars@.len() as int),
        )
    }

    /// Appends to `tokens` the token with the value `value` that starts at
    /// `start` and whose last character is the one before the cursor.
    fn add_token(&self, value: TokenValue<'s>, start: Position, tokens: &mut Tokens<'s>)
        requires
            self.wf(),
            self.position() > 0,
        ensures
            final(tokens)@ == old(tokens)@.push(
                (Token { value, start, end: end_position_at(self.source(), self.position()) })@,
            ),
    {
        let end = self.cursor.end_position(Ghost(self.chars@));
        tokens.push(Token::new(value, start, end));
    }

    /// Appends to `tokens` the token of kind `kind` that runs from `start` to
    /// the cursor. Nothing is appended where the two are the same place.
    fn capture_token(&self, tokens: &mut Tokens<'s>, start: Cursor, kind: TokenKind)
        requires
            self.wf(),
            start.wf(self.source()),
            start.index <= self.position(),
            kind != TokenKind::Fragment,
        ensures
            final(tokens)@ == if start.index < self.position() {
                old(tokens)@.push(
                    span_view(self.source(), leaf(kind, start.index as int, self.position())),
                )
            } else {
                old(tokens)@
            },
    {
        if start.index < self.cursor.index {
            let text = slice(
                self.input,
                start.offset,
                self.cursor.offset,
                Ghost(start.index as int),
                Ghost(self.cursor.index as int),
            );
            let first = start.position(Ghost(self.chars@));
            self.add_token(TokenValue::leaf(kind, text), first, tokens);
            proof {
                let s = self.chars@;
                let span = leaf(kind, start.index as int, self.cursor.index as int);
                assert(spans_view(s, span.children) =~= Seq::empty());
                assert(tokens@.last() == span_view(s, span));
            }
        }
    }

    /// Captures the comment that starts at the cursor and runs to the end of
    /// the line.
    fn capture_single_line_comment(&mut self, tokens: &mut Tokens<'s>)
        requires
            old(self).wf(),
            old(self).position() < old(self).source().len(),
        ensures
            final(self).moved(
                old(self),
                line_end(old(self).source(), old(self).position() + 1),
            ),
            final(tokens)@ == old(tokens)@.push(
                span_view(
                    old(self).source(),
                    leaf(
                        TokenKind::Comment,
                        old(self).position(),
                        line_end(old(self).source(), old(self).position() + 1),
                    ),
                ),
            ),
    {
        let start = self.cursor;
        self.get_next_char();
        let ghost s = self.chars@;
        let ghost goal = line_end(s, start.index + 1);
        loop
            invariant_except_break
                line_end(s, self.position()) == goal,
            invariant
                self.wf(),
                self.same_text(old(self)),
                s == self.chars@,
                start.index < self.position() <= s.len(),
            ensures
                self.position() == goal,
            decreases s.len() - self.position(),
        {
            match self.peek() {
                None => {
                    break ;
                },
                Some(c) => {
                    if c == '\n' {
                        break ;
                    }
                    self.get_next_char();
                },
            }
        }
        self.capture_token(tokens, start, TokenKind::Comment);
    }

    /// Captures the comment that starts with `/*` at the cursor. Comments of
    /// this form nest: the comment ends where as many `*/` as `/*` have been
    /// read, or with the text.
    fn capture_multi_line_comment(&mut self, tokens: &mut Tokens<'s>)
        requires
            old(self).wf(),
            old(self).position() + 2 <= old(self).source().len(),
        ensures
            final(self).moved(
                old(self),
                block_comment_end(old(self).source(), old(self).position() + 2, 1),
            ),
            final(tokens)@ == old(tokens)@.push(
                span_view(
                    old(self).source(),
                    leaf(
                        TokenKind::Comment,
                        old(self).position(),
                        block_comment_end(old(self).source(), old(self).position() + 2, 1),
                    ),
                ),
            ),
    {
        let start = self.cursor;
        self.forward_iter(2);
        let ghost s = self.chars@;
        let ghost goal = block_comment_end(s, start.index + 2, 1);
        // The number of comments that are open: one more for each `/*`, one
        // less for each `*/`.
        let mut nested_level: usize = 1;
        loop
            invariant_except_break
                1 <= nested_level <= self.position(),
                block_comment_end(s, self.position(), nested_level as nat) == goal,
            invariant
                self.wf(),
                self.same_text(old(self)),
                s == self.chars@,
                start.index + 2 <= self.position() <= s.len(),
            ensures
                self.position() == goal,
            decreases s.len() - self.position(),
        {
            let next = self.peek_at(1);
            match self.get_next_char() {
                None => {
                    break ;
                },
                Some(c) => {
                    if c == '*' && next == Some('/') {
                        self.get_next_char();
                        nested_level -= 1;
                        if nested_level == 0 {
                            break ;
                        }
                    } else if c == '/' && next == Some('*') {
                        self.get_next_char();
                        nested_level += 1;
                    }
                },
            }
        }
        self.capture_token(tokens, start, TokenKind::Comment);
    }

    /// Captures the quoted text that starts at `start` and whose opening
    /// `quote` is the character before the cursor. A `quote` written twice
    /// stands for itself; the first one that is not ends the text, and so
    /// does the end of the input.
    fn capture_quoted_identifier_or_constant(
        &mut self,
        start: Cursor,
        quote: char,
        tokens: &mut Tokens<'s>,
    )
        requires
            old(self).wf(),
            start.wf(old(self).source()),
            start.index < old(self).position(),
        ensures
            final(self).moved(
                old(self),
                quoted_end(old(self).source(), old(self).position(), quote),
            ),
            final(tokens)@ == old(tokens)@.push(
                span_view(
                    old(self).source(),
                    leaf(
                        TokenKind::QuotedIdentifierOrConstant,
                        start.index as int,
                        quoted_end(old(self).source(), old(self).position(), quote),
                    ),
                ),
            ),
    {
        let ghost s = self.chars@;
        let ghost goal = quoted_end(s, self.position(), quote);
        loop
            invariant_except_break
                quoted_end(s, self.position(), quote) == goal,
            invariant
                self.wf(),
                self.same_text(old(self)),
                s == self.chars@,
                start.index < self.position() <= s.len(),
            ensures
                self.position() == goal,
                start.index < self.position(),
                self.wf(),
                self.same_text(old(self)),
            decreases s.len() - self.position(),
        {
            match self.get_next_char() {
                None => {
                    break ;
                },
                Some(c) => {
                    if c == quote {
                        if self.peek() == Some(quote) {
                            self.get_next_char();
                        } else {
                            break ;
                        }
                    }
                },
            }
        }
        self.capture_token(tokens, start, TokenKind::QuotedIdentifierOrConstant);
    }

    /// Captures the text of kind `kind` that starts at `start` and ends behind
    /// the first `delimiter` from the cursor on, or with the input. Nothing
    /// escapes the delimiter.
    fn capture_delimited_token(
        &mut self,
        start: Cursor,
        delimiter: &Vec<char>,
        kind: TokenKind,
        tokens: &mut Tokens<'s>,
    )
        requires
            old(self).wf(),
            start.wf(old(self).source()),
            start.index < old(self).position(),
            delimiter@.len() > 0,
            kind != TokenKind::Fragment,
        ensures
            final(self).moved(
                old(self),
                delimited_end(old(self).source(), old(self).position(), delimiter@),
            ),
            final(tokens)@ == old(tokens)@.push(
                span_view(
                    old(self).source(),
                    leaf(
                        kind,
                        start.index as int,
                        delimited_end(old(self).source(), old(self).position(), delimiter@),
                    ),
                ),
            ),
    {
        let ghost s = self.chars@;
        let ghost goal = delimited_end(s, self.position(), delimiter@);
        loop
            invariant_except_break
                delimited_end(s, self.position(), delimiter@) == goal,
            invariant
                self.wf(),
                self.same_text(old(self)),
                s == self.chars@,
                start.index < self.position() <= s.len(),
                delimiter@.len() > 0,
            ensures
                self.position() == goal,
                start.index < self.position(),
                self.wf(),
                self.same_text(old(self)),
            decreases s.len() - self.position(),
        {
            if self.cursor.index >= self.chars.len() {
                break ;
            }
            if self.check_delimiter(delimiter) {
                self.forward_iter(delimiter.len());
                break ;
            }
            self.get_next_char();
        }
        self.capture_token(tokens, start, kind);
    }

    /// Captures the numeric constant in base `radix` that starts at `start`
    /// and goes on from the cursor: up to the first character that the base
    /// does not allow. An `e` or `E` takes the sign or digit behind it along;
    /// with anything else behind it, it ends the constant.
    fn capture_numeric_constant(
        &mut self,
        start: Cursor,
        radix: Radix,
        tokens: &mut Tokens<'s>,
    )
        requires
            old(self).wf(),
            start.wf(old(self).source()),
            start.index < old(self).position(),
        ensures
            final(self).moved(
                old(self),
                numeric_end(old(self).source(), old(self).position(), radix),
            ),
            final(tokens)@ == old(tokens)@.push(
                span_view(
                    old(self).source(),
                    leaf(
                        TokenKind::NumericConstant,
                        start.index as int,
                        numeric_end(old(self).source(), old(self).position(), radix),
                    ),
                ),
            ),
    {
        let ghost s = self.chars@;
        let ghost goal = numeric_end(s, self.position(), radix);
        loop
            invariant_except_break
                numeric_end(s, self.position(), radix) == goal,
            invariant
                self.wf(),
                self.same_text(old(self)),
                s == self.chars@,
                start.index < self.position() <= s.len(),
            ensures
                self.position() == goal,
            decreases s.len() - self.position(),
        {
            match self.peek() {
                None => {
                    break ;
                },
                Some(c) => {
                    if !radix_char(radix, c) {
                        break ;
                    }
                    self.get_next_char();
                    if c == 'e' || c == 'E' {
                        match self.peek() {
                            None => {
                                break ;
                            },
                            Some(sign) => {
                                if sign == '+' || sign == '-' || digit(sign) {
                                    self.get_next_char();
                                } else {
                                    break ;
                                }
                            },
                        }
                    }
                },
            }
        }
        self.capture_token(tokens, start, TokenKind::NumericConstant);
    }

    /// Moves the cursor behind the letters, digits and underscores of ASCII
    /// that stand at it.
    fn skip_name(&mut self)
        requires
            old(self).wf(),
        ensures
            final(self).moved(old(self), name_end(old(self).source(), old(self).position())),
    {
        let ghost s = self.chars@;
        let ghost goal = name_end(s, self.position());
        loop
            invariant_except_break
                name_end(s, self.position()) == goal,
            invariant
                self.wf(),
                self.same_text(old(self)),
                s == self.chars@,
            ensures
                self.position() == goal,
            decreases s.len() - self.position(),
        {
            match self.peek() {
                None => {
                    break ;
                },
                Some(c) => {
                    if !name_char(c) {
                        break ;
                    }
                    self.get_next_char();
                },
            }
        }
    }

    /// Reads the word that starts at the cursor, and captures it as an
    /// identifier or keyword unless a single quote follows it: then the word
    /// introduces a constant, nothing is captured, and the cursor is left at
    /// the quote. Returns whether the word was captured.
    fn try_capture_identifier_or_keyword(&mut self, tokens: &mut Tokens<'s>) -> (captured:
        bool)
        requires
            old(self).wf(),
            old(self).position() < old(self).source().len(),
        ensures
            final(self).moved(
                old(self),
                word_end(old(self).source(), old(self).position() + 1),
            ),
            captured == !at(old(self).source(), final(self).position(), '\''),
            final(tokens)@ == if captured {
                old(tokens)@.push(
                    span_view(
                        old(self).source(),
                        leaf(
                            TokenKind::IdentifierOrKeyword,
                            old(self).position(),
                            final(self).position(),
                        ),
                    ),
                )
            } else {
                old(tokens)@
            },
    {
        let start = self.cursor;
        self.get_next_char();
        let ghost s = self.chars@;
        let ghost goal = word_end(s, self.position());
        loop
            invariant_except_break
                word_end(s, self.position()) == goal,
            invariant
                self.wf(),
                self.same_text(old(self)),
                s == self.chars@,
                start.index < self.position() <= s.len(),
            ensures
                self.position() == goal,
            decreases s.len() - self.position(),
        {
            match self.peek() {
                None => {
                    break ;
                },
                Some(c) => {
                    if !word_char(c) {
                        break ;
                    }
                    self.get_next_char();
                },
            }
        }
        if self.peek() == Some('\'') {
            return false;
        }
        self.capture_token(tokens, start, TokenKind::IdentifierOrKeyword);
        true
    }

    /// The length of the longest operator that stands at the cursor; 0 where
    /// none does.
    fn operator_length(&self) -> (n: usize)
        requires
            self.wf(),
        ensures
            n == operator_len(self.source(), self.position()),
    {
        match self.peek() {
            None => 0,
            Some(a) => {
                let second = self.peek_at(1);
                let third = self.peek_at(2);
                if a == '!' && second == Some('~') && third == Some('*') {
                    3
                } else {
                    match second {
                        Some(b) => {
                            if operator_pair(a, b) {
                                2
                            } else if operator_char(a) {
                                1
                            } else {
                                0
                            }
                        },
                        None => {
                            if operator_char(a) {
                                1
                            } else {
                                0
                            }
                        },
                    }
                }
            },
        }
    }

    /// Captures the longest operator that stands at the cursor, if one does.
    /// Returns whether one did.
    fn try_capture_operator(&mut self, tokens: &mut Tokens<'s>) -> (found: bool)
        requires
            old(self).wf(),
        ensures
            found == (operator_len(old(self).source(), old(self).position()) > 0),
            final(self).moved(
                old(self),
                old(self).position() + operator_len(old(self).source(), old(self).position()),
            ),
            final(tokens)@ == if found {
                old(tokens)@.push(
                    span_view(
                        old(self).source(),
                        leaf(TokenKind::Operator, old(self).position(), final(self).position()),
                    ),
                )
            } else {
                old(tokens)@
            },
    {
        let n = self.operator_length();
        if n == 0 {
            return false;
        }
        let start = self.cursor;
        self.forward_iter(n);
        self.capture_token(tokens, start, TokenKind::Operator);
        true
    }

    /// The characters of the text from index `from` up to, not including,
    /// index `to`.
    fn chars_between(&self, from: usize, to: usize) -> (v: Vec<char>)
        requires
            self.wf(),
            from <= to <= self.source().len(),
        ensures
            v@ == self.source().subrange(from as int, to as int),
    {
        let mut v: Vec<char> = Vec::new();
        let mut k: usize = from;
        while k < to
            invariant
                self.wf(),
                from <= k <= to <= self.chars.len(),
                v@ == self.chars@.subrange(from as int, k as int),
            decreases to - k,
        {
            v.push(self.chars[k]);
            assert(v@ =~= self.chars@.subrange(from as int, k + 1));
            k += 1;
        }
        v
    }

    /// Captures the token that starts with the dollar sign at the cursor: the
    /// text between two occurrences of a dollar-quote tag, a parameter
    /// marker, or the dollar sign alone.
    fn capture_dollar_token(&mut self, tokens: &mut Tokens<'s>)
        requires
            old(self).wf(),
            old(self).position() < old(self).source().len(),
        ensures
            final(self).moved(
                old(self),
                dollar_lexeme(old(self).source(), old(self).position()).to,
            ),
            final(tokens)@ == old(tokens)@.push(
                span_view(
                    old(self).source(),
                    dollar_lexeme(old(self).source(), old(self).position()),
                ),
            ),
    {
        let start = self.cursor;
        proof {
            lemma_name_end_bounds(self.chars@, start.index + 1);
        }
        self.get_next_char();
        self.skip_name();
        if self.peek() == Some('$') {
            self.get_next_char();
            let tag = self.chars_between(start.index, self.cursor.index);
            self.capture_delimited_token(start, &tag, TokenKind::Delimited, tokens);
        } else if self.cursor.index > start.index + 1 {
            self.capture_token(tokens, start, TokenKind::ParameterMarker);
        } else {
            self.capture_token(tokens, start, TokenKind::Any);
        }
    }

    /// Captures the token that starts with the `:`, `@` or `?` at the cursor:
    /// the operator `::`, a parameter marker, or the character alone.
    fn capture_parameter_marker(&mut self, tokens: &mut Tokens<'s>)
        requires
            old(self).wf(),
            old(self).position() < old(self).source().len(),
        ensures
            final(self).moved(
                old(self),
                marker_lexeme(old(self).source(), old(self).position()).to,
            ),
            final(tokens)@ == old(tokens)@.push(
                span_view(
                    old(self).source(),
                    marker_lexeme(old(self).source(), old(self).position()),
                ),
            ),
    {
        let start = self.cursor;
        proof {
            lemma_name_end_bounds(self.chars@, start.index + 1);
        }
        let first = self.get_next_char();
        if first == Some(':') && self.peek() == Some(':') {
            self.get_next_char();
            self.capture_token(tokens, start, TokenKind::Operator);
        } else {
            self.skip_name();
            if first == Some('?') || self.cursor.index > start.index + 1 {
                self.capture_token(tokens, start, TokenKind::ParameterMarker);
            } else {
                self.capture_token(tokens, start, TokenKind::Any);
            }
        }
    }

    /// Captures the numeric constant that starts with the digit at the
    /// cursor. Behind a zero, `x`, `o` and `b` in either case announce the
    /// base.
    fn capture_number(&mut self, tokens: &mut Tokens<'s>)
        requires
            old(self).wf(),
            old(self).position() < old(self).source().len(),
        ensures
            final(self).moved(
                old(self),
                number_lexeme(old(self).source(), old(self).position()).to,
            ),
            final(tokens)@ == old(tokens)@.push(
                span_view(
                    old(self).source(),
                    number_lexeme(old(self).source(), old(self).position()),
                ),
            ),
    {
        let start = self.cursor;
        let first = self.get_next_char();
        if first != Some('0') {
            self.capture_numeric_constant(start, Radix::Decimal, tokens);
            return ;
        }
        match self.peek() {
            Some(c) => {
                if c == 'x' || c == 'X' {
                    self.get_next_char();
                    self.capture_numeric_constant(start, Radix::Hexadecimal, tokens);
                } else if c == 'o' || c == 'O' {
                    self.get_next_char();
                    self.capture_numeric_constant(start, Radix::Octal, tokens);
                } else if c == 'b' || c == 'B' {
                    self.get_next_char();
                    self.capture_numeric_constant(start, Radix::Binary, tokens);
                } else if c == '.' || digit(c) {
                    self.get_next_char();
                    self.capture_numeric_constant(start, Radix::Decimal, tokens);
                } else {
                    self.capture_token(tokens, start, TokenKind::NumericConstant);
                }
            },
            None => {
                self.capture_token(tokens, start, TokenKind::NumericConstant);
            },
        }
    }

    /// Captures the token that starts with the letter or underscore at the
    /// cursor: an identifier or keyword, or the constant that it introduces.
    fn capture_word(&mut self, tokens: &mut Tokens<'s>)
        requires
            old(self).wf(),
            old(self).position() < old(self).source().len(),
        ensures
            final(self).moved(
                old(self),
                word_lexeme(old(self).source(), old(self).position()).to,
            ),
            final(tokens)@ == old(tokens)@.push(
                span_view(
                    old(self).source(),
                    word_lexeme(old(self).source(), old(self).position()),
                ),
            ),
    {
        let start = self.cursor;
        let first = self.chars[start.index];
        proof {
            lemma_word_end_bounds(self.chars@, start.index + 1);
        }
        if self.try_capture_identifier_or_keyword(tokens) {
            return ;
        }
        self.get_next_char();
        if first == 'B' || first == 'b' || first == 'X' || first == 'x' {
            let mut quote: Vec<char> = Vec::new();
            quote.push('\'');
            assert(quote@ =~= seq!['\'']);
            self.capture_delimited_token(
                start,
                &quote,
                TokenKind::QuotedIdentifierOrConstant,
                tokens,
            );
        } else {
            self.capture_quoted_identifier_or_constant(start, '\'', tokens);
        }
    }

    /// Captures the token that starts at the cursor, where a character
    /// stands that is no blank, no parenthesis and not the start of the
    /// statement delimiter.
    fn capture_lexeme(&mut self, tokens: &mut Tokens<'s>)
        requires
            old(self).wf(),
            old(self).position() < old(self).source().len(),
        ensures
            final(self).moved(old(self), lexeme(old(self).source(), old(self).position()).to),
            final(tokens)@ == old(tokens)@.push(
                span_view(old(self).source(), lexeme(old(self).source(), old(self).position())),
            ),
    {
        let start = self.cursor;
        let c = self.chars[start.index];
        let second = self.peek_at(1);
        if c == '#' || (c == '-' && second == Some('-')) {
            self.capture_single_line_comment(tokens);
        } else if c == '/' && second == Some('*') {
            self.capture_multi_line_comment(tokens);
        } else if c == '\'' || c == '"' || c == '`' {
            self.get_next_char();
            self.capture_quoted_identifier_or_constant(start, c, tokens);
        } else if c == 'U' && second == Some('&') && self.peek_at(2) == Some('"') {
            self.forward_iter(3);
            self.capture_quoted_identifier_or_constant(start, '"', tokens);
        } else if c == '$' {
            self.capture_dollar_token(tokens);
        } else if c == ':' || c == '@' || c == '?' {
            self.capture_parameter_marker(tokens);
        } else if c == '.' {
            match second {
                Some(d) => {
                    if digit(d) {
                        self.forward_iter(2);
                        self.capture_numeric_constant(start, Radix::Decimal, tokens);
                    } else {
                        self.get_next_char();
                        self.capture_token(tokens, start, TokenKind::Any);
                    }
                },
                None => {
                    self.get_next_char();
                    self.capture_token(tokens, start, TokenKind::Any);
                },
            }
        } else if number(c) {
            self.capture_number(tokens);
        } else if alpha(c) || c == '_' {
            self.capture_word(tokens);
        } else if !self.try_capture_operator(tokens) {
            self.get_next_char();
            self.capture_token(tokens, start, TokenKind::Any);
        }
    }

    /// Captures the tokens from the cursor up to where the fragment stops: at
    /// a closing parenthesis that no parenthesis of the fragment opened, at
    /// the statement delimiter, or at the end of the text. Returns the
    /// character at which it stopped, which is not read; `None` at the end of
    /// the text.
    ///
    /// An opening parenthesis is captured as a token, what follows it up to
    /// the closing parenthesis as one fragment, and the closing parenthesis
    /// as a token. A fragment that the closing parenthesis does not end stops
    /// the fragment around it too.
    fn capture_fragment(&mut self, tokens: &mut Tokens<'s>) -> (stopped_at: Option<char>)
        requires
            old(self).wf(),
        ensures
            final(self).moved(
                old(self),
                scan(old(self).source(), old(self).separator(), old(self).position()).stop,
            ),
            final(tokens)@ == old(tokens)@ + spans_view(
                old(self).source(),
                scan(old(self).source(), old(self).separator(), old(self).position()).tokens,
            ),
            stopped_at == final(self).next_char(),
        decreases old(self).source().len() - old(self).position(),
    {
        let ghost s = self.chars@;
        let ghost d = self.delimiter@;
        let ghost start = self.position();
        let ghost goal = scan(s, d, start);
        let ghost base = tokens@;
        let ghost mut done: Seq<Span> = Seq::empty();
        assert(tokens@ =~= base + spans_view(s, done));
        loop
            invariant_except_break
                goal.tokens == done + scan(s, d, self.position()).tokens,
                goal.stop == scan(s, d, self.position()).stop,
            invariant
                self.wf(),
                self.same_text(old(self)),
                s == self.chars@,
                d == self.delimiter@,
                start == old(self).position(),
                start <= self.position() <= s.len(),
                tokens@ == base + spans_view(s, done),
            ensures
                self.position() == goal.stop,
                goal.tokens == done,
            decreases s.len() - self.position(),
        {
            let ghost i = self.position();
            let c = match self.peek() {
                None => {
                    assert(done + scan(s, d, i).tokens =~= done);
                    break ;
                },
                Some(c) => c,
            };
            if c == '\n' || c == '\r' {
                self.get_next_char();
            } else if self.check_delimiter(&self.delimiter) {
                assert(done + scan(s, d, i).tokens =~= done);
                break ;
            } else if blank(c) {
                self.get_next_char();
            } else if c == '(' {
                let mark = self.cursor;
                self.get_next_char();
                self.capture_token(tokens, mark, TokenKind::Any);
                let inner_start = self.cursor.start_position(self.chars.len(), Ghost(s));
                let mut nested = Tokens::new();
                let stopped = self.capture_fragment(&mut nested);
                let ghost inner = scan(s, d, i + 1);
                let ghost open = leaf(TokenKind::Any, i, i + 1);
                let ghost fragment = Span {
                    kind: TokenKind::Fragment,
                    from: i + 1,
                    to: inner.stop,
                    children: inner.tokens,
                };
                proof {
                    lemma_scan_bounds(s, d, i + 1);
                    assert(nested@ =~= spans_view(s, inner.tokens));
                }
                self.add_token(TokenValue::Fragment(nested), inner_start, tokens);
                assert(tokens@.last() == span_view(s, fragment));
                if stopped == Some(')') {
                    let mark = self.cursor;
                    self.get_next_char();
                    self.capture_token(tokens, mark, TokenKind::Any);
                    proof {
                        let close = leaf(TokenKind::Any, inner.stop, inner.stop + 1);
                        let added = seq![open, fragment, close];
                        assert(tokens@ =~= base + spans_view(s, done + added));
                        assert(done + (added + scan(s, d, inner.stop + 1).tokens) =~= (done
                            + added) + scan(s, d, inner.stop + 1).tokens);
                        done = done + added;
                    }
                } else {
                    proof {
                        let added = seq![open, fragment];
                        assert(tokens@ =~= base + spans_view(s, done + added));
                        done = done + added;
                    }
                    break ;
                }
            } else if c == ')' {
                assert(done + scan(s, d, i).tokens =~= done);
                break ;
            } else {
                self.capture_lexeme(tokens);
                proof {
                    lemma_lexeme_bounds(s, i);
                    let token = lexeme(s, i);
                    assert(tokens@ =~= base + spans_view(s, done.push(token)));
                    assert(done + (seq![token] + scan(s, d, token.to).tokens) =~= done.push(token)
                        + scan(s, d, token.to).tokens);
                    done = done.push(token);
                }
            }
        }
        self.peek()
    }

    /// Takes the statement that starts at the cursor: the tokens up to and
    /// including the statement delimiter, or up to the end of the text. A
    /// closing parenthesis that nothing opened is a token like any other.
    /// Returns `None` where no token is left, which is where only blanks
    /// are.
    fn get_next_statement(&mut self) -> (r: Option<Statement<'s>>)
        requires
            old(self).wf(),
        ensures
            final(self).moved(
                old(self),
                statement_at(old(self).source(), old(self).separator(), old(self).position()).next,
            ),
            r is Some <==> statement_at(
                old(self).source(),
                old(self).separator(),
                old(self).position(),
            ).tokens.len() > 0,
            r is Some ==> {
                &&& r->0.wf()
                &&& r->0.source() == old(self).source()
                &&& r->0.separator() == old(self).separator()
                &&& r->0.origin() == old(self).position()
            },
    {
        let ghost s = self.chars@;
        let ghost d = self.delimiter@;
        let ghost start = self.position();
        let ghost goal = statement_at(s, d, start);
        let ghost mut done: Seq<Span> = Seq::empty();
        let mut tokens = Tokens::new();
        assert(tokens@ =~= spans_view(s, done));
        loop
            invariant_except_break
                goal.tokens == done + statement_at(s, d, self.position()).tokens,
                goal.next == statement_at(s, d, self.position()).next,
            invariant
                self.wf(),
                self.same_text(old(self)),
                s == self.chars@,
                d == self.delimiter@,
                start <= self.position() <= s.len(),
                tokens@ == spans_view(s, done),
            ensures
                self.position() == goal.next,
                goal.tokens == done,
            decreases s.len() - self.position(),
        {
            let ghost i = self.position();
            let ghost head = scan(s, d, i);
            proof {
                lemma_scan_bounds(s, d, i);
            }
            let stopped = self.capture_fragment(&mut tokens);
            if stopped.is_none() {
                proof {
                    assert(tokens@ =~= spans_view(s, done + head.tokens));
                    done = done + head.tokens;
                }
                break ;
            }
            let mark = self.cursor;
            if self.check_delimiter(&self.delimiter) {
                self.forward_iter(self.delimiter.len());
                self.capture_token(&mut tokens, mark, TokenKind::StatementDelimiter);
                proof {
                    let end = leaf(TokenKind::StatementDelimiter, head.stop, head.stop + d.len());
                    assert(tokens@ =~= spans_view(s, done + head.tokens.push(end)));
                    done = done + head.tokens.push(end);
                }
                break ;
            } else {
                self.get_next_char();
                self.capture_token(&mut tokens, mark, TokenKind::Any);
                proof {
                    let close = leaf(TokenKind::Any, head.stop, head.stop + 1);
                    let rest = statement_at(s, d, head.stop + 1).tokens;
                    assert(tokens@ =~= spans_view(s, done + head.tokens.push(close)));
                    assert(done + (head.tokens.push(close) + rest) =~= (done + head.tokens.push(
                        close,
                    )) + rest);
                    done = done + head.tokens.push(close);
                }
            }
        }
        if tokens.0.len() == 0 {
            None
        } else {
            Some(Statement::new(self.input, tokens, Ghost(d), Ghost(start)))
        }
    }

    /// Takes the next statement of the text; `None` where none is left.
    pub fn next(&mut self) -> (r: Option<Statement<'s>>)
        requires
            old(self).wf(),
        ensures
            final(self).moved(
                old(self),
                statement_at(old(self).source(), old(self).separator(), old(self).position()).next,
            ),
            r is Some <==> statement_at(
                old(self).source(),
                old(self).separator(),
                old(self).position(),
            ).tokens.len() > 0,
            r is Some ==> {
                &&& r->0.wf()
                &&& r->0.source() == old(self).source()
                &&& r->0.separator() == old(self).separator()
                &&& r->0.origin() == old(self).position()
            },
            r is Some ==> old(self).position() < final(self).position(),
    {
        if self.cursor.index >= self.chars.len() {
            return None;
        }
        proof {
            lemma_statement_bounds(self.chars@, self.delimiter@, self.position());
        }
        self.get_next_statement()
    }

    /// Takes all the statements that are left, in the order of the text.
    pub fn collect(self) -> (r: Vec<Statement<'s>>)
        requires
            self.wf(),
        ensures
            r@.len() == statements_from(self.source(), self.separator(), self.position()).len(),
            forall|k: int|
                0 <= k < r@.len() ==> {
                    &&& (#[trigger] r@[k]).wf()
                    &&& r@[k].source() == self.source()
                    &&& r@[k].separator() == self.separator()
                    &&& r@[k].spans() == statements_from(
                        self.source(),
                        self.separator(),
                        self.position(),
                    )[k]
                },
    {
        let mut this = self;
        let ghost s = this.chars@;
        let ghost d = this.delimiter@;
        let ghost all = statements_from(s, d, this.position());
        let mut found: Vec<Statement<'s>> = Vec::new();
        loop
            invariant_except_break
                all =~= all.take(found@.len() as int) + statements_from(s, d, this.position()),
            invariant
                this.wf(),
                s == this.chars@,
                d == this.delimiter@,
                found@.len() <= all.len(),
                forall|k: int|
                    0 <= k < found@.len() ==> {
                        &&& (#[trigger] found@[k]).wf()
                        &&& found@[k].source() == s
                        &&& found@[k].separator() == d
                        &&& found@[k].spans() == all[k]
                    },
            ensures
                found@.len() == all.len(),
            decreases s.len() - this.position(),
        {
            let ghost i = this.position();
            proof {
                lemma_statement_bounds(s, d, i);
            }
            match this.next() {
                None => {
                    break ;
                },
                Some(statement) => {
                    let ghost n = found@.len() as int;
                    found.push(statement);
                    proof {
                        let rest = statements_from(s, d, this.position());
                        assert(all.take(n + 1) =~= all.take(n).push(all[n]));
                        assert(all =~= all.take(n + 1) + rest);
                    }
                },
            }
        }
        found
    }
}

} // verus!
