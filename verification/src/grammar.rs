//! What the tokens of a text are.
//!
//! A text is a sequence of characters, and a token is a span of it: the
//! indices of its first character and of the character after its last. The
//! functions of this module say where each kind of token ends, which token
//! starts at a given character, and which tokens make up a fragment and a
//! statement.
use crate::chars::{is_alpha, is_blank, is_digit, is_name_char, is_number, is_word_char};
use crate::text::{end_position_at, start_position_at};
use crate::tokens::{TokenKind, TokenView};
use vstd::prelude::*;

verus! {

/// A token as a span of the text: the characters from `from` up to, not
/// including, `to`. A fragment holds the spans of its tokens.
pub ghost struct Span {
    pub kind: TokenKind,
    pub from: int,
    pub to: int,
    pub children: Seq<Span>,
}

/// The span of a token that is no fragment.
pub open spec fn leaf(kind: TokenKind, from: int, to: int) -> Span {
    Span { kind, from, to, children: seq![] }
}

/// The token that the span `span` of the text `s` is: its kind, its text
/// unless it is a fragment, its tokens if it is one, and the positions of its
/// first and last character.
pub open spec fn span_view(s: Seq<char>, span: Span) -> TokenView
    decreases span,
{
    TokenView {
        kind: span.kind,
        text: if span.kind == TokenKind::Fragment {
            seq![]
        } else {
            s.subrange(span.from, span.to)
        },
        children: spans_view(s, span.children),
        start: start_position_at(s, span.from),
        end: end_position_at(s, span.to),
    }
}

/// The tokens that the spans `spans` of the text `s` are.
pub open spec fn spans_view(s: Seq<char>, spans: Seq<Span>) -> Seq<TokenView>
    decreases spans,
{
    Seq::new(
        spans.len(),
        |i: int|
            if 0 <= i < spans.len() {
                span_view(s, spans[i])
            } else {
                arbitrary()
            },
    )
}

/// Whether the character at index `i` exists and is `c`.
pub open spec fn at(s: Seq<char>, i: int, c: char) -> bool {
    0 <= i < s.len() && s[i] == c
}

/// Whether `p` stands in `s` at index `i`.
pub open spec fn starts_with_at(s: Seq<char>, i: int, p: Seq<char>) -> bool {
    &&& 0 <= i
    &&& i + p.len() <= s.len()
    &&& forall|k: int| 0 <= k < p.len() ==> s[i + k] == p[k]
}

/// Where a comment that runs to the end of its line ends: at the first line
/// feed from `p` on, or at the end of the text.
pub open spec fn line_end(s: Seq<char>, p: int) -> int
    decreases s.len() - p,
{
    if p < 0 || p >= s.len() || s[p] == '\n' {
        p
    } else {
        line_end(s, p + 1)
    }
}

/// Where a comment between `/*` and `*/` ends, seen from `p` inside it, with
/// `depth` comments open: behind the `*/` that closes the outermost one, or
/// at the end of the text.
pub open spec fn block_comment_end(s: Seq<char>, p: int, depth: nat) -> int
    decreases s.len() - p,
{
    if p < 0 || p >= s.len() {
        p
    } else if s[p] == '*' && at(s, p + 1, '/') {
        if depth <= 1 {
            p + 2
        } else {
            block_comment_end(s, p + 2, (depth - 1) as nat)
        }
    } else if s[p] == '/' && at(s, p + 1, '*') {
        block_comment_end(s, p + 2, depth + 1)
    } else {
        block_comment_end(s, p + 1, depth)
    }
}

/// Where a text quoted by `quote` ends, seen from `p` inside it: behind the
/// first `quote` that is not written twice, or at the end of the text.
pub open spec fn quoted_end(s: Seq<char>, p: int, quote: char) -> int
    decreases s.len() - p,
{
    if p < 0 || p >= s.len() {
        p
    } else if s[p] == quote {
        if at(s, p + 1, quote) {
            quoted_end(s, p + 2, quote)
        } else {
            p + 1
        }
    } else {
        quoted_end(s, p + 1, quote)
    }
}

/// Where a text closed by `delimiter` ends, seen from `p` inside it: behind
/// the first occurrence of `delimiter`, or at the end of the text.
pub open spec fn delimited_end(s: Seq<char>, p: int, delimiter: Seq<char>) -> int
    decreases s.len() - p,
{
    if p < 0 || p >= s.len() {
        p
    } else if delimiter.len() > 0 && starts_with_at(s, p, delimiter) {
        p + delimiter.len()
    } else {
        delimited_end(s, p + 1, delimiter)
    }
}

/// The index of the first character from `p` on that is no letter, digit or
/// underscore of ASCII.
pub open spec fn name_end(s: Seq<char>, p: int) -> int
    decreases s.len() - p,
{
    if p < 0 || p >= s.len() || !is_name_char(s[p]) {
        p
    } else {
        name_end(s, p + 1)
    }
}

/// The index of the first character from `p` on that cannot stand in an
/// identifier or keyword.
pub open spec fn word_end(s: Seq<char>, p: int) -> int
    decreases s.len() - p,
{
    if p < 0 || p >= s.len() || !is_word_char(s[p]) {
        p
    } else {
        word_end(s, p + 1)
    }
}

/// The base in which a numeric constant is written.
#[derive(Debug, Clone, Copy, PartialEq, Eq, Structural)]
pub enum Radix {
    Binary,
    Octal,
    Decimal,
    Hexadecimal,
}

/// The characters that a numeric constant in base `radix` may hold behind
/// its first ones: the digits of the base and the underscore, and for a
/// decimal constant the dot and the letter of the exponent.
pub open spec fn is_radix_char(radix: Radix, c: char) -> bool {
    c == '_' || match radix {
        Radix::Binary => c == '0' || c == '1',
        Radix::Octal => '0' <= c <= '7',
        Radix::Decimal => is_digit(c) || c == '.' || c == 'e' || c == 'E',
        Radix::Hexadecimal => is_digit(c) || 'a' <= c <= 'f' || 'A' <= c <= 'F',
    }
}

/// Where a numeric constant in base `radix` ends, seen from `p` inside it: at
/// the first character that the base does not allow. An `e` or `E` is
/// followed by a sign or a digit, which belongs to the constant whatever the
/// base; followed by anything else it is the constant's last character.
pub open spec fn numeric_end(s: Seq<char>, p: int, radix: Radix) -> int
    decreases s.len() - p,
{
    if p < 0 || p >= s.len() || !is_radix_char(radix, s[p]) {
        p
    } else if s[p] == 'e' || s[p] == 'E' {
        if p + 1 < s.len() && (s[p + 1] == '+' || s[p + 1] == '-' || is_digit(s[p + 1])) {
            numeric_end(s, p + 2, radix)
        } else {
            p + 1
        }
    } else {
        numeric_end(s, p + 1, radix)
    }
}

/// Whether `a` followed by `b` is an operator of two characters.
pub open spec fn is_operator_pair(a: char, b: char) -> bool {
    ||| a == '!' && b == '='
    ||| a == '>' && b == '='
    ||| a == '<' && b == '='
    ||| a == '<' && b == '>'
    ||| a == '|' && b == '|'
    ||| a == '<' && b == '<'
    ||| a == '>' && b == '>'
    ||| a == ':' && b == ':'
    ||| a == '~' && b == '*'
    ||| a == '!' && b == '~'
}

/// Whether `a` is an operator of one character.
pub open spec fn is_operator_char(a: char) -> bool {
    ||| a == '+'
    ||| a == '-'
    ||| a == '*'
    ||| a == '/'
    ||| a == '='
    ||| a == '>'
    ||| a == '<'
    ||| a == '!'
    ||| a == '%'
    ||| a == '~'
    ||| a == '&'
    ||| a == '|'
    ||| a == '^'
}

/// The length of the longest operator that stands at index `i`; 0 where none
/// does.
pub open spec fn operator_len(s: Seq<char>, i: int) -> int {
    if i < 0 || i >= s.len() {
        0
    } else if at(s, i, '!') && at(s, i + 1, '~') && at(s, i + 2, '*') {
        3
    } else if i + 1 < s.len() && is_operator_pair(s[i], s[i + 1]) {
        2
    } else if is_operator_char(s[i]) {
        1
    } else {
        0
    }
}

/// The token that starts with `$` at index `i`: a text between two
/// occurrences of a dollar-quote tag, a parameter marker, or the dollar sign
/// alone.
pub open spec fn dollar_lexeme(s: Seq<char>, i: int) -> Span {
    let t = name_end(s, i + 1);
    if at(s, t, '$') {
        leaf(TokenKind::Delimited, i, delimited_end(s, t + 1, s.subrange(i, t + 1)))
    } else if t > i + 1 {
        leaf(TokenKind::ParameterMarker, i, t)
    } else {
        leaf(TokenKind::Any, i, i + 1)
    }
}

/// The token that starts with `:`, `@` or `?` at index `i`: the operator
/// `::`, a parameter marker, or the character alone.
pub open spec fn marker_lexeme(s: Seq<char>, i: int) -> Span {
    let t = name_end(s, i + 1);
    if s[i] == ':' && at(s, i + 1, ':') {
        leaf(TokenKind::Operator, i, i + 2)
    } else if s[i] == '?' || t > i + 1 {
        leaf(TokenKind::ParameterMarker, i, t)
    } else {
        leaf(TokenKind::Any, i, i + 1)
    }
}

/// The numeric constant that starts with the digit at index `i`.
pub open spec fn number_lexeme(s: Seq<char>, i: int) -> Span {
    let to = if s[i] != '0' {
        numeric_end(s, i + 1, Radix::Decimal)
    } else if at(s, i + 1, 'x') || at(s, i + 1, 'X') {
        numeric_end(s, i + 2, Radix::Hexadecimal)
    } else if at(s, i + 1, 'o') || at(s, i + 1, 'O') {
        numeric_end(s, i + 2, Radix::Octal)
    } else if at(s, i + 1, 'b') || at(s, i + 1, 'B') {
        numeric_end(s, i + 2, Radix::Binary)
    } else if i + 1 < s.len() && (s[i + 1] == '.' || is_digit(s[i + 1])) {
        numeric_end(s, i + 2, Radix::Decimal)
    } else {
        i + 1
    };
    leaf(TokenKind::NumericConstant, i, to)
}

/// The token that starts with the letter or underscore at index `i`: an
/// identifier or keyword, unless a single quote follows it. Then it
/// introduces a constant, which ends at the next single quote where the
/// introducer starts with `B` or `X` in either case, and as any quoted text
/// does otherwise.
pub open spec fn word_lexeme(s: Seq<char>, i: int) -> Span {
    let e = word_end(s, i + 1);
    if !at(s, e, '\'') {
        leaf(TokenKind::IdentifierOrKeyword, i, e)
    } else if s[i] == 'B' || s[i] == 'b' || s[i] == 'X' || s[i] == 'x' {
        leaf(TokenKind::QuotedIdentifierOrConstant, i, delimited_end(s, e + 1, seq!['\'']))
    } else {
        leaf(TokenKind::QuotedIdentifierOrConstant, i, quoted_end(s, e + 1, '\''))
    }
}

/// The token that starts at index `i`, where a character stands that is no
/// blank, no parenthesis and not the start of the statement delimiter.
pub open spec fn lexeme(s: Seq<char>, i: int) -> Span {
    let c = s[i];
    if c == '#' || (c == '-' && at(s, i + 1, '-')) {
        leaf(TokenKind::Comment, i, line_end(s, i + 1))
    } else if c == '/' && at(s, i + 1, '*') {
        leaf(TokenKind::Comment, i, block_comment_end(s, i + 2, 1))
    } else if c == '\'' || c == '"' || c == '`' {
        leaf(TokenKind::QuotedIdentifierOrConstant, i, quoted_end(s, i + 1, c))
    } else if c == 'U' && at(s, i + 1, '&') && at(s, i + 2, '"') {
        leaf(TokenKind::QuotedIdentifierOrConstant, i, quoted_end(s, i + 3, '"'))
    } else if c == '$' {
        dollar_lexeme(s, i)
    } else if c == ':' || c == '@' || c == '?' {
        marker_lexeme(s, i)
    } else if c == '.' {
        if i + 1 < s.len() && is_digit(s[i + 1]) {
            leaf(TokenKind::NumericConstant, i, numeric_end(s, i + 2, Radix::Decimal))
        } else {
            leaf(TokenKind::Any, i, i + 1)
        }
    } else if is_number(c) {
        number_lexeme(s, i)
    } else if is_alpha(c) || c == '_' {
        word_lexeme(s, i)
    } else if operator_len(s, i) > 0 {
        leaf(TokenKind::Operator, i, i + operator_len(s, i))
    } else {
        leaf(TokenKind::Any, i, i + 1)
    }
}

/// A comment that runs to the end of its line ends in the text.
pub proof fn lemma_line_end_bounds(s: Seq<char>, p: int)
    requires
        0 <= p <= s.len(),
    ensures
        p <= line_end(s, p) <= s.len(),
    decreases s.len() - p,
{
    if p < s.len() && s[p] != '\n' {
        lemma_line_end_bounds(s, p + 1);
    }
}

/// A comment between `/*` and `*/` ends in the text.
pub proof fn lemma_block_comment_end_bounds(s: Seq<char>, p: int, depth: nat)
    requires
        0 <= p <= s.len(),
    ensures
        p <= block_comment_end(s, p, depth) <= s.len(),
    decreases s.len() - p,
{
    if p < s.len() {
        if s[p] == '*' && at(s, p + 1, '/') {
            if depth > 1 {
                lemma_block_comment_end_bounds(s, p + 2, (depth - 1) as nat);
            }
        } else if s[p] == '/' && at(s, p + 1, '*') {
            lemma_block_comment_end_bounds(s, p + 2, depth + 1);
        } else {
            lemma_block_comment_end_bounds(s, p + 1, depth);
        }
    }
}

/// A quoted text ends in the text.
pub proof fn lemma_quoted_end_bounds(s: Seq<char>, p: int, quote: char)
    requires
        0 <= p <= s.len(),
    ensures
        p <= quoted_end(s, p, quote) <= s.len(),
    decreases s.len() - p,
{
    if p < s.len() {
        if s[p] == quote {
            if at(s, p + 1, quote) {
                lemma_quoted_end_bounds(s, p + 2, quote);
            }
        } else {
            lemma_quoted_end_bounds(s, p + 1, quote);
        }
    }
}

/// A delimited text ends in the text.
pub proof fn lemma_delimited_end_bounds(s: Seq<char>, p: int, delimiter: Seq<char>)
    requires
        0 <= p <= s.len(),
    ensures
        p <= delimited_end(s, p, delimiter) <= s.len(),
    decreases s.len() - p,
{
    if p < s.len() && !(delimiter.len() > 0 && starts_with_at(s, p, delimiter)) {
        lemma_delimited_end_bounds(s, p + 1, delimiter);
    }
}

/// A name ends in the text.
pub proof fn lemma_name_end_bounds(s: Seq<char>, p: int)
    requires
        0 <= p <= s.len(),
    ensures
        p <= name_end(s, p) <= s.len(),
    decreases s.len() - p,
{
    if p < s.len() && is_name_char(s[p]) {
        lemma_name_end_bounds(s, p + 1);
    }
}

/// A word ends in the text.
pub proof fn lemma_word_end_bounds(s: Seq<char>, p: int)
    requires
        0 <= p <= s.len(),
    ensures
        p <= word_end(s, p) <= s.len(),
    decreases s.len() - p,
{
    if p < s.len() && is_word_char(s[p]) {
        lemma_word_end_bounds(s, p + 1);
    }
}

/// A numeric constant ends in the text.
pub proof fn lemma_numeric_end_bounds(s: Seq<char>, p: int, radix: Radix)
    requires
        0 <= p <= s.len(),
    ensures
        p <= numeric_end(s, p, radix) <= s.len(),
    decreases s.len() - p,
{
    if p < s.len() && is_radix_char(radix, s[p]) {
        if s[p] == 'e' || s[p] == 'E' {
            if p + 1 < s.len() && (s[p + 1] == '+' || s[p + 1] == '-' || is_digit(s[p + 1])) {
                lemma_numeric_end_bounds(s, p + 2, radix);
            }
        } else {
            lemma_numeric_end_bounds(s, p + 1, radix);
        }
    }
}

/// A token is not empty, is no fragment, and ends in the text.
pub proof fn lemma_lexeme_bounds(s: Seq<char>, i: int)
    requires
        0 <= i < s.len(),
    ensures
        lexeme(s, i).from == i,
        i < lexeme(s, i).to <= s.len(),
        lexeme(s, i).kind != TokenKind::Fragment,
        lexeme(s, i).children.len() == 0,
{
    let c = s[i];
    lemma_line_end_bounds(s, i + 1);
    if i + 2 <= s.len() {
        lemma_block_comment_end_bounds(s, i + 2, 1);
        lemma_numeric_end_bounds(s, i + 2, Radix::Decimal);
        lemma_numeric_end_bounds(s, i + 2, Radix::Hexadecimal);
        lemma_numeric_end_bounds(s, i + 2, Radix::Octal);
        lemma_numeric_end_bounds(s, i + 2, Radix::Binary);
    }
    lemma_quoted_end_bounds(s, i + 1, c);
    if i + 3 <= s.len() {
        lemma_quoted_end_bounds(s, i + 3, '"');
    }
    lemma_numeric_end_bounds(s, i + 1, Radix::Decimal);
    let t = name_end(s, i + 1);
    lemma_name_end_bounds(s, i + 1);
    if t < s.len() {
        lemma_delimited_end_bounds(s, t + 1, s.subrange(i, t + 1));
    }
    let e = word_end(s, i + 1);
    lemma_word_end_bounds(s, i + 1);
    if e < s.len() {
        lemma_delimited_end_bounds(s, e + 1, seq!['\'']);
        lemma_quoted_end_bounds(s, e + 1, '\'');
    }
}

/// The tokens of a fragment, and the index at which it stops.
pub ghost struct Scan {
    pub tokens: Seq<Span>,
    pub stop: int,
}

/// The tokens from index `i` up to where the fragment stops: at a closing
/// parenthesis that no parenthesis of the fragment opened, at the statement
/// delimiter, or at the end of the text.
///
/// Blanks separate tokens. An opening parenthesis is a token, and so is the
/// closing one that matches it; the tokens between them are one fragment,
/// which may stop at the statement delimiter or at the end of the text
/// instead, and then stops the fragment around it too.
pub open spec fn scan(s: Seq<char>, delimiter: Seq<char>, i: int) -> Scan
    decreases s.len() - i,
{
    if i < 0 || i >= s.len() {
        Scan { tokens: seq![], stop: i }
    } else if s[i] == '\n' || s[i] == '\r' {
        scan(s, delimiter, i + 1)
    } else if starts_with_at(s, i, delimiter) {
        Scan { tokens: seq![], stop: i }
    } else if is_blank(s[i]) {
        scan(s, delimiter, i + 1)
    } else if s[i] == '(' {
        let inner = scan(s, delimiter, i + 1);
        let open = leaf(TokenKind::Any, i, i + 1);
        let fragment = Span {
            kind: TokenKind::Fragment,
            from: i + 1,
            to: inner.stop,
            children: inner.tokens,
        };
        if i < inner.stop && at(s, inner.stop, ')') {
            let rest = scan(s, delimiter, inner.stop + 1);
            Scan {
                tokens: seq![open, fragment, leaf(TokenKind::Any, inner.stop, inner.stop + 1)]
                    + rest.tokens,
                stop: rest.stop,
            }
        } else {
            Scan { tokens: seq![open, fragment], stop: inner.stop }
        }
    } else if s[i] == ')' {
        Scan { tokens: seq![], stop: i }
    } else {
        let token = lexeme(s, i);
        proof {
            lemma_lexeme_bounds(s, i);
        }
        let rest = scan(s, delimiter, token.to);
        Scan { tokens: seq![token] + rest.tokens, stop: rest.stop }
    }
}

/// A fragment stops at or behind its start, and in the text.
pub proof fn lemma_scan_bounds(s: Seq<char>, delimiter: Seq<char>, i: int)
    requires
        0 <= i <= s.len(),
    ensures
        i <= scan(s, delimiter, i).stop <= s.len(),
    decreases s.len() - i,
{
    if i < s.len() {
        if s[i] == '\n' || s[i] == '\r' {
            lemma_scan_bounds(s, delimiter, i + 1);
        } else if starts_with_at(s, i, delimiter) {
        } else if is_blank(s[i]) {
            lemma_scan_bounds(s, delimiter, i + 1);
        } else if s[i] == '(' {
            lemma_scan_bounds(s, delimiter, i + 1);
            let inner = scan(s, delimiter, i + 1);
            if at(s, inner.stop, ')') {
                lemma_scan_bounds(s, delimiter, inner.stop + 1);
            }
        } else if s[i] == ')' {
        } else {
            lemma_lexeme_bounds(s, i);
            lemma_scan_bounds(s, delimiter, lexeme(s, i).to);
        }
    }
}

/// The tokens of a statement, and the index at which the next one starts.
pub ghost struct StatementSpans {
    pub tokens: Seq<Span>,
    pub next: int,
}

/// The statement that starts at index `i`: the tokens up to and including
/// the statement delimiter, or up to the end of the text. A closing
/// parenthesis that nothing opened is a token like any other.
pub open spec fn statement_at(s: Seq<char>, delimiter: Seq<char>, i: int) -> StatementSpans
    decreases s.len() - i,
{
    let head = scan(s, delimiter, i);
    if head.stop < i || head.stop >= s.len() {
        StatementSpans { tokens: head.tokens, next: head.stop }
    } else if starts_with_at(s, head.stop, delimiter) {
        StatementSpans {
            tokens: head.tokens.push(
                leaf(TokenKind::StatementDelimiter, head.stop, head.stop + delimiter.len()),
            ),
            next: head.stop + delimiter.len(),
        }
    } else {
        let rest = statement_at(s, delimiter, head.stop + 1);
        StatementSpans {
            tokens: head.tokens.push(leaf(TokenKind::Any, head.stop, head.stop + 1)) + rest.tokens,
            next: rest.next,
        }
    }
}

/// A statement ends in the text, and behind its start if it has a token.
pub proof fn lemma_statement_bounds(s: Seq<char>, delimiter: Seq<char>, i: int)
    requires
        0 <= i <= s.len(),
        delimiter.len() > 0,
    ensures
        i <= statement_at(s, delimiter, i).next <= s.len(),
        statement_at(s, delimiter, i).tokens.len() > 0 ==> i < statement_at(s, delimiter, i).next,
        statement_at(s, delimiter, i).tokens.len() == 0 ==> statement_at(s, delimiter, i).next
            == s.len(),
    decreases s.len() - i,
{
    lemma_scan_bounds(s, delimiter, i);
    lemma_scan_progress(s, delimiter, i);
    let head = scan(s, delimiter, i);
    if head.stop < s.len() && !starts_with_at(s, head.stop, delimiter) {
        lemma_statement_bounds(s, delimiter, head.stop + 1);
    }
}

/// A fragment that holds a token stops behind its start; one that holds none
/// holds only blanks.
pub proof fn lemma_scan_progress(s: Seq<char>, delimiter: Seq<char>, i: int)
    requires
        0 <= i <= s.len(),
    ensures
        scan(s, delimiter, i).tokens.len() > 0 ==> i < scan(s, delimiter, i).stop,
    decreases s.len() - i,
{
    if i < s.len() {
        if s[i] == '\n' || s[i] == '\r' {
            lemma_scan_progress(s, delimiter, i + 1);
        } else if starts_with_at(s, i, delimiter) {
        } else if is_blank(s[i]) {
            lemma_scan_progress(s, delimiter, i + 1);
        } else if s[i] == '(' {
            lemma_scan_bounds(s, delimiter, i + 1);
            let inner = scan(s, delimiter, i + 1);
            if at(s, inner.stop, ')') {
                lemma_scan_bounds(s, delimiter, inner.stop + 1);
            }
        } else if s[i] == ')' {
        } else {
            lemma_lexeme_bounds(s, i);
            lemma_scan_bounds(s, delimiter, lexeme(s, i).to);
        }
    }
}

/// The statements from index `i` on: one after the other, up to the end of
/// the text. Blanks at the end of the text make no statement, and an empty
/// delimiter delimits none.
pub open spec fn statements_from(s: Seq<char>, delimiter: Seq<char>, i: int) -> Seq<Seq<Span>>
    decreases s.len() - i,
{
    let first = statement_at(s, delimiter, i);
    if i < 0 || i >= s.len() || delimiter.len() == 0 || first.tokens.len() == 0 {
        seq![]
    } else {
        proof {
            lemma_statement_bounds(s, delimiter, i);
        }
        seq![first.tokens] + statements_from(s, delimiter, first.next)
    }
}

} // verus!
