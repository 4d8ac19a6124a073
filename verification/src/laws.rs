//! What holds of the tokens of every text.
use crate::chars::is_blank;
use crate::grammar::{
    at, leaf, lemma_lexeme_bounds, lemma_scan_bounds, lemma_statement_bounds, lexeme, scan,
    span_view, spans_view, starts_with_at, statement_at, statements_from, Span,
};
use crate::text::{
    column_at, end_position_at, lemma_column_increases, lemma_coordinates_bounded,
    lemma_line_increases, lemma_offset_increases, line_at, offset_at, start_position_at,
};
use crate::tokens::{concat, flat_texts, leaf_texts, TokenKind, TokenView};
use vstd::prelude::*;

verus! {

/// Whether the spans follow each other between `lo` and `hi`: none starts
/// before the one before it ends, a token that is no fragment is not empty, a
/// fragment starts behind `lo`, where its parenthesis stands, and the spans
/// that a fragment holds follow each other inside the fragment.
pub open spec fn in_order(spans: Seq<Span>, lo: int, hi: int) -> bool
    decreases spans,
{
    &&& forall|k: int|
        0 <= k < spans.len() ==> {
            &&& lo <= (#[trigger] spans[k]).from <= spans[k].to <= hi
            &&& spans[k].kind != TokenKind::Fragment ==> spans[k].from < spans[k].to
            &&& spans[k].kind == TokenKind::Fragment ==> lo < spans[k].from
            &&& in_order(spans[k].children, spans[k].from, spans[k].to)
        }
    &&& forall|j: int, k: int|
        0 <= j < k < spans.len() ==> (#[trigger] spans[j]).to <= (#[trigger] spans[k]).from
}

/// Spans that follow each other between two bounds do so between wider ones.
pub proof fn lemma_in_order_widens(spans: Seq<Span>, lo: int, hi: int, lower: int, higher: int)
    requires
        in_order(spans, lo, hi),
        lower <= lo,
        hi <= higher,
    ensures
        in_order(spans, lower, higher),
{
}

/// Two runs of spans that follow each other, the second behind the first,
/// make one such run.
pub proof fn lemma_in_order_joins(a: Seq<Span>, b: Seq<Span>, lo: int, mid: int, hi: int)
    requires
        lo <= mid <= hi,
        in_order(a, lo, mid),
        in_order(b, mid, hi),
    ensures
        in_order(a + b, lo, hi),
{
    let c = a + b;
    assert forall|k: int| 0 <= k < c.len() implies {
        &&& lo <= (#[trigger] c[k]).from <= c[k].to <= hi
        &&& c[k].kind != TokenKind::Fragment ==> c[k].from < c[k].to
        &&& c[k].kind == TokenKind::Fragment ==> lo < c[k].from
        &&& in_order(c[k].children, c[k].from, c[k].to)
    } by {
        if k < a.len() {
            assert(c[k] == a[k]);
        } else {
            assert(c[k] == b[k - a.len()]);
        }
    }
    assert forall|j: int, k: int| 0 <= j < k < c.len() implies (#[trigger] c[j]).to <= (
    #[trigger] c[k]).from by {
        if j < a.len() {
            assert(c[j] == a[j]);
        } else {
            assert(c[j] == b[j - a.len()]);
        }
        if k < a.len() {
            assert(c[k] == a[k]);
        } else {
            assert(c[k] == b[k - a.len()]);
        }
    }
}

/// The tokens of a fragment follow each other between its start and the
/// index at which it stops.
pub proof fn lemma_scan_in_order(s: Seq<char>, delimiter: Seq<char>, i: int)
    requires
        0 <= i <= s.len(),
    ensures
        in_order(scan(s, delimiter, i).tokens, i, scan(s, delimiter, i).stop),
    decreases s.len() - i,
{
    lemma_scan_bounds(s, delimiter, i);
    if i < s.len() {
        if s[i] == '\n' || s[i] == '\r' {
            lemma_scan_in_order(s, delimiter, i + 1);
            lemma_in_order_widens(
                scan(s, delimiter, i + 1).tokens,
                i + 1,
                scan(s, delimiter, i).stop,
                i,
                scan(s, delimiter, i).stop,
            );
        } else if starts_with_at(s, i, delimiter) {
        } else if is_blank(s[i]) {
            lemma_scan_in_order(s, delimiter, i + 1);
            lemma_in_order_widens(
                scan(s, delimiter, i + 1).tokens,
                i + 1,
                scan(s, delimiter, i).stop,
                i,
                scan(s, delimiter, i).stop,
            );
        } else if s[i] == '(' {
            let inner = scan(s, delimiter, i + 1);
            lemma_scan_bounds(s, delimiter, i + 1);
            lemma_scan_in_order(s, delimiter, i + 1);
            let open = leaf(TokenKind::Any, i, i + 1);
            let fragment = Span {
                kind: TokenKind::Fragment,
                from: i + 1,
                to: inner.stop,
                children: inner.tokens,
            };
            if at(s, inner.stop, ')') {
                let close = leaf(TokenKind::Any, inner.stop, inner.stop + 1);
                let rest = scan(s, delimiter, inner.stop + 1);
                lemma_scan_bounds(s, delimiter, inner.stop + 1);
                lemma_scan_in_order(s, delimiter, inner.stop + 1);
                let head = seq![open, fragment, close];
                assert(in_order(open.children, open.from, open.to));
                assert(in_order(close.children, close.from, close.to));
                assert(in_order(head, i, inner.stop + 1));
                lemma_in_order_joins(head, rest.tokens, i, inner.stop + 1, rest.stop);
            } else {
                assert(in_order(open.children, open.from, open.to));
                assert(in_order(seq![open, fragment], i, inner.stop));
            }
        } else if s[i] == ')' {
        } else {
            let token = lexeme(s, i);
            lemma_lexeme_bounds(s, i);
            let rest = scan(s, delimiter, token.to);
            lemma_scan_bounds(s, delimiter, token.to);
            lemma_scan_in_order(s, delimiter, token.to);
            assert(token.children =~= Seq::empty());
            assert(in_order(token.children, token.from, token.to));
            assert(in_order(seq![token], i, token.to));
            lemma_in_order_joins(seq![token], rest.tokens, i, token.to, rest.stop);
        }
    }
}

/// The tokens of a statement follow each other between its start and the
/// start of the next one.
pub proof fn lemma_statement_in_order(s: Seq<char>, delimiter: Seq<char>, i: int)
    requires
        0 <= i <= s.len(),
        delimiter.len() > 0,
    ensures
        in_order(statement_at(s, delimiter, i).tokens, i, statement_at(s, delimiter, i).next),
    decreases s.len() - i,
{
    let head = scan(s, delimiter, i);
    lemma_scan_bounds(s, delimiter, i);
    lemma_scan_in_order(s, delimiter, i);
    if head.stop < s.len() {
        if starts_with_at(s, head.stop, delimiter) {
            let end = leaf(TokenKind::StatementDelimiter, head.stop, head.stop + delimiter.len());
            assert(in_order(end.children, end.from, end.to));
            assert(in_order(seq![end], head.stop, end.to));
            lemma_in_order_joins(head.tokens, seq![end], i, head.stop, end.to);
            assert(head.tokens.push(end) =~= head.tokens + seq![end]);
        } else {
            let close = leaf(TokenKind::Any, head.stop, head.stop + 1);
            let rest = statement_at(s, delimiter, head.stop + 1);
            lemma_statement_bounds(s, delimiter, head.stop + 1);
            lemma_statement_in_order(s, delimiter, head.stop + 1);
            assert(in_order(close.children, close.from, close.to));
            assert(in_order(seq![close], head.stop, close.to));
            lemma_in_order_joins(head.tokens, seq![close], i, head.stop, close.to);
            assert(head.tokens.push(close) =~= head.tokens + seq![close]);
            lemma_in_order_joins(head.tokens.push(close), rest.tokens, i, close.to, rest.next);
        }
    }
}

/// Whether one position is at or before another in each of its coordinates:
/// its offset is no greater, its line is no greater, and on the same line its
/// column is no greater.
pub open spec fn precedes(a: crate::Position, b: crate::Position) -> bool {
    &&& a.offset <= b.offset
    &&& a.line <= b.line
    &&& a.line == b.line ==> a.column <= b.column
}

/// Whether the positions of the tokens only increase: each token that has a
/// character ends at or behind its start, each token starts at or behind
/// the start and the end of the tokens before it, and the same holds of the
/// tokens of each fragment.
pub open spec fn positions_increase(tokens: Seq<TokenView>) -> bool
    decreases tokens,
{
    &&& forall|k: int|
        0 <= k < tokens.len() ==> {
            &&& (#[trigger] tokens[k]).start.offset <= tokens[k].end.offset
            &&& tokens[k].start.offset < tokens[k].end.offset ==> precedes(
                tokens[k].start,
                tokens[k].end,
            )
            &&& positions_increase(tokens[k].children)
        }
    &&& forall|j: int, k: int|
        0 <= j < k < tokens.len() ==> {
            &&& precedes((#[trigger] tokens[j]).start, (#[trigger] tokens[k]).start)
            &&& precedes(tokens[j].end, tokens[k].start)
        }
}

/// The coordinates of the position that starts a token at index `i`.
pub proof fn lemma_start_position(s: Seq<char>, i: int)
    requires
        0 <= i <= s.len(),
        i > 0 || i < s.len(),
        offset_at(s, s.len() as int) <= usize::MAX,
    ensures
        start_position_at(s, i).offset == offset_at(s, i),
        start_position_at(s, i).line == line_at(s, if i < s.len() { i } else { i - 1 }),
        start_position_at(s, i).column == column_at(s, if i < s.len() { i } else { i - 1 }),
{
    lemma_coordinates_bounded(s, s.len() as int);
    lemma_coordinates_bounded(s, i);
    lemma_offset_increases(s, i, s.len() as int);
    if i > 0 {
        lemma_coordinates_bounded(s, i - 1);
    }
}

/// The coordinates of the position that ends a token at index `i`.
pub proof fn lemma_end_position(s: Seq<char>, i: int)
    requires
        0 < i <= s.len(),
        offset_at(s, s.len() as int) <= usize::MAX,
    ensures
        end_position_at(s, i).offset == offset_at(s, i),
        end_position_at(s, i).line == line_at(s, i - 1),
        end_position_at(s, i).column == column_at(s, i - 1),
{
    lemma_coordinates_bounded(s, s.len() as int);
    lemma_coordinates_bounded(s, i - 1);
    lemma_coordinates_bounded(s, i);
    lemma_offset_increases(s, i, s.len() as int);
}

/// The positions of tokens whose spans follow each other only increase.
pub proof fn lemma_positions_increase(s: Seq<char>, spans: Seq<Span>, lo: int, hi: int)
    requires
        in_order(spans, lo, hi),
        0 <= lo,
        hi <= s.len(),
        offset_at(s, s.len() as int) <= usize::MAX,
    ensures
        positions_increase(spans_view(s, spans)),
    decreases spans,
{
    let tokens = spans_view(s, spans);
    assert forall|k: int| 0 <= k < tokens.len() implies {
        &&& (#[trigger] tokens[k]).start.offset <= tokens[k].end.offset
        &&& tokens[k].start.offset < tokens[k].end.offset ==> precedes(
            tokens[k].start,
            tokens[k].end,
        )
        &&& positions_increase(tokens[k].children)
    } by {
        let span = spans[k];
        assert(tokens[k] == span_view(s, span));
        lemma_start_position(s, span.from);
        lemma_end_position(s, span.to);
        lemma_offset_increases(s, span.from, span.to);
        if span.from < span.to {
            lemma_line_increases(s, span.from, span.to - 1);
            if line_at(s, span.from) == line_at(s, span.to - 1) {
                lemma_column_increases(s, span.from, span.to - 1);
            }
        }
        lemma_positions_increase(s, span.children, span.from, span.to);
    }
    assert forall|j: int, k: int| 0 <= j < k < tokens.len() implies {
        &&& precedes((#[trigger] tokens[j]).start, (#[trigger] tokens[k]).start)
        &&& precedes(tokens[j].end, tokens[k].start)
    } by {
        let a = spans[j];
        let b = spans[k];
        assert(tokens[j] == span_view(s, a));
        assert(tokens[k] == span_view(s, b));
        lemma_start_position(s, a.from);
        lemma_end_position(s, a.to);
        lemma_start_position(s, b.from);
        let first = if a.from < s.len() {
            a.from
        } else {
            a.from - 1
        };
        let last = a.to - 1;
        let next = if b.from < s.len() {
            b.from
        } else {
            b.from - 1
        };
        lemma_offset_increases(s, a.from, b.from);
        lemma_offset_increases(s, a.to, b.from);
        lemma_line_increases(s, first, next);
        lemma_line_increases(s, last, next);
        if line_at(s, first) == line_at(s, next) {
            lemma_column_increases(s, first, next);
        }
        if line_at(s, last) == line_at(s, next) {
            lemma_column_increases(s, last, next);
        }
    }
}

/// Position monotonicity: in every statement, and in every fragment of it,
/// each token starts at or behind the end of the token before it. Offsets
/// and lines never decrease from one token to the next, and neither do the
/// columns of tokens on one line.
pub proof fn law_positions_increase(s: Seq<char>, delimiter: Seq<char>, i: int)
    requires
        0 <= i <= s.len(),
        delimiter.len() > 0,
        offset_at(s, s.len() as int) <= usize::MAX,
    ensures
        positions_increase(spans_view(s, statement_at(s, delimiter, i).tokens)),
{
    lemma_statement_bounds(s, delimiter, i);
    lemma_statement_in_order(s, delimiter, i);
    lemma_positions_increase(
        s,
        statement_at(s, delimiter, i).tokens,
        i,
        statement_at(s, delimiter, i).next,
    );
}

/// The leaves of a token, from left to right: the token itself, or for a
/// fragment the leaves of its tokens.
pub open spec fn span_leaves(span: Span) -> Seq<Span>
    decreases span,
{
    if span.kind == TokenKind::Fragment {
        leaves(span.children)
    } else {
        seq![span]
    }
}

/// The leaves of a sequence of tokens, from left to right.
pub open spec fn leaves(spans: Seq<Span>) -> Seq<Span>
    decreases spans,
{
    if spans.len() == 0 {
        seq![]
    } else {
        leaves(spans.drop_last()) + span_leaves(spans.last())
    }
}

/// The texts that the spans cut out of `s`.
pub open spec fn texts_of(s: Seq<char>, spans: Seq<Span>) -> Seq<Seq<char>> {
    Seq::new(spans.len(), |k: int| s.subrange(spans[k].from, spans[k].to))
}

/// Whether the characters from index `from` up to, not including, index `to`
/// are all blanks.
pub open spec fn all_blank(s: Seq<char>, from: int, to: int) -> bool {
    &&& from <= to
    &&& forall|k: int| from <= k < to ==> is_blank(#[trigger] s[k])
}

/// Whether the spans, with only blanks before, between and behind them, make
/// up the characters from index `from` up to, not including, index `to`.
pub open spec fn covers(s: Seq<char>, spans: Seq<Span>, from: int, to: int) -> bool
    decreases spans.len(),
{
    if spans.len() == 0 {
        all_blank(s, from, to)
    } else {
        &&& all_blank(s, from, spans[0].from)
        &&& spans[0].from < spans[0].to <= to
        &&& covers(s, spans.drop_first(), spans[0].to, to)
    }
}

/// Whether the spans, with nothing between them, make up the characters from
/// index `from` up to, not including, index `to`.
pub open spec fn gapless(spans: Seq<Span>, from: int, to: int) -> bool
    decreases spans.len(),
{
    if spans.len() == 0 {
        from == to
    } else {
        &&& spans[0].from == from
        &&& spans[0].from < spans[0].to <= to
        &&& gapless(spans.drop_first(), spans[0].to, to)
    }
}

/// The leaves of two runs of tokens are those of the first, then those of
/// the second.
pub proof fn lemma_leaves_join(a: Seq<Span>, b: Seq<Span>)
    ensures
        leaves(a + b) == leaves(a) + leaves(b),
    decreases b.len(),
{
    if b.len() == 0 {
        assert(a + b =~= a);
        assert(leaves(a) + leaves(b) =~= leaves(a));
    } else {
        assert((a + b).drop_last() =~= a + b.drop_last());
        assert((a + b).last() == b.last());
        lemma_leaves_join(a, b.drop_last());
        assert(leaves(a + b) =~= leaves(a) + leaves(b));
    }
}

/// The leaves of one token.
pub proof fn lemma_leaves_of_one(span: Span)
    ensures
        leaves(seq![span]) == span_leaves(span),
{
    assert(seq![span].drop_last() =~= Seq::<Span>::empty());
    assert(seq![span].last() == span);
    assert(leaves(Seq::<Span>::empty()) =~= Seq::<Span>::empty());
    assert(leaves(seq![span]) =~= span_leaves(span));
}

/// The texts of the leaves of tokens are what the leaves of their spans cut
/// out of the text.
pub proof fn lemma_flat_texts(s: Seq<char>, spans: Seq<Span>)
    ensures
        flat_texts(spans_view(s, spans)) == texts_of(s, leaves(spans)),
    decreases spans,
{
    let tokens = spans_view(s, spans);
    if spans.len() == 0 {
        assert(flat_texts(tokens) =~= texts_of(s, leaves(spans)));
    } else {
        let last = spans.last();
        assert(tokens.drop_last() =~= spans_view(s, spans.drop_last()));
        assert(tokens.last() == span_view(s, last));
        lemma_flat_texts(s, spans.drop_last());
        if last.kind == TokenKind::Fragment {
            lemma_flat_texts(s, last.children);
            assert(span_view(s, last).children == spans_view(s, last.children));
        } else {
            assert(leaf_texts(span_view(s, last)) =~= texts_of(s, seq![last]));
        }
        assert(leaf_texts(span_view(s, last)) == texts_of(s, span_leaves(last)));
        assert(flat_texts(tokens) == flat_texts(tokens.drop_last()) + leaf_texts(tokens.last()));
        assert(texts_of(s, leaves(spans.drop_last()) + span_leaves(last)) =~= texts_of(
            s,
            leaves(spans.drop_last()),
        ) + texts_of(s, span_leaves(last)));
    }
}

/// Blanks before spans that cover a range make the range longer.
pub proof fn lemma_covers_after_blanks(
    s: Seq<char>,
    spans: Seq<Span>,
    from: int,
    mid: int,
    to: int,
)
    requires
        all_blank(s, from, mid),
        covers(s, spans, mid, to),
    ensures
        covers(s, spans, from, to),
{
}

/// Spans that cover a range, followed by spans that cover the next range,
/// cover both.
pub proof fn lemma_covers_joins(
    s: Seq<char>,
    a: Seq<Span>,
    b: Seq<Span>,
    from: int,
    mid: int,
    to: int,
)
    requires
        covers(s, a, from, mid),
        covers(s, b, mid, to),
        mid <= to,
    ensures
        covers(s, a + b, from, to),
    decreases a.len(),
{
    if a.len() == 0 {
        assert(a + b =~= b);
        lemma_covers_after_blanks(s, b, from, mid, to);
    } else {
        assert((a + b)[0] == a[0]);
        assert((a + b).drop_first() =~= a.drop_first() + b);
        lemma_covers_joins(s, a.drop_first(), b, a[0].to, mid, to);
    }
}

/// Spans that cover a range end in it.
pub proof fn lemma_covers_bounds(s: Seq<char>, spans: Seq<Span>, from: int, to: int)
    requires
        covers(s, spans, from, to),
    ensures
        from <= to,
        forall|k: int|
            0 <= k < spans.len() ==> from <= (#[trigger] spans[k]).from < spans[k].to <= to,
    decreases spans.len(),
{
    if spans.len() > 0 {
        let rest = spans.drop_first();
        lemma_covers_bounds(s, rest, spans[0].to, to);
        assert forall|k: int| 0 <= k < spans.len() implies from <= (#[trigger] spans[k]).from
            < spans[k].to <= to by {
            if k > 0 {
                assert(spans[k] == rest[k - 1]);
            }
        }
    }
}

/// The leaves of a fragment, with only blanks before, between and behind
/// them, make up the characters from its start to where it stops.
pub proof fn lemma_scan_covers(s: Seq<char>, delimiter: Seq<char>, i: int)
    requires
        0 <= i <= s.len(),
    ensures
        covers(s, leaves(scan(s, delimiter, i).tokens), i, scan(s, delimiter, i).stop),
    decreases s.len() - i,
{
    lemma_scan_bounds(s, delimiter, i);
    if i < s.len() {
        if s[i] == '\n' || s[i] == '\r' {
            lemma_scan_covers(s, delimiter, i + 1);
            lemma_scan_bounds(s, delimiter, i + 1);
            lemma_covers_after_blanks(
                s,
                leaves(scan(s, delimiter, i + 1).tokens),
                i,
                i + 1,
                scan(s, delimiter, i).stop,
            );
        } else if starts_with_at(s, i, delimiter) {
        } else if is_blank(s[i]) {
            lemma_scan_covers(s, delimiter, i + 1);
            lemma_scan_bounds(s, delimiter, i + 1);
            lemma_covers_after_blanks(
                s,
                leaves(scan(s, delimiter, i + 1).tokens),
                i,
                i + 1,
                scan(s, delimiter, i).stop,
            );
        } else if s[i] == '(' {
            let inner = scan(s, delimiter, i + 1);
            lemma_scan_bounds(s, delimiter, i + 1);
            lemma_scan_covers(s, delimiter, i + 1);
            let open = leaf(TokenKind::Any, i, i + 1);
            let fragment = Span {
                kind: TokenKind::Fragment,
                from: i + 1,
                to: inner.stop,
                children: inner.tokens,
            };
            lemma_leaves_of_one(open);
            lemma_leaves_of_one(fragment);
            assert(seq![open, fragment] =~= seq![open] + seq![fragment]);
            lemma_leaves_join(seq![open], seq![fragment]);
            assert(covers(s, seq![open].drop_first(), i + 1, i + 1));
            assert(covers(s, seq![open], i, i + 1));
            lemma_covers_joins(s, seq![open], leaves(inner.tokens), i, i + 1, inner.stop);
            if at(s, inner.stop, ')') {
                let close = leaf(TokenKind::Any, inner.stop, inner.stop + 1);
                let rest = scan(s, delimiter, inner.stop + 1);
                lemma_scan_bounds(s, delimiter, inner.stop + 1);
                lemma_scan_covers(s, delimiter, inner.stop + 1);
                lemma_leaves_of_one(close);
                assert(seq![open, fragment, close] =~= seq![open, fragment] + seq![close]);
                lemma_leaves_join(seq![open, fragment], seq![close]);
                lemma_leaves_join(seq![open, fragment, close], rest.tokens);
                assert(covers(s, seq![close].drop_first(), inner.stop + 1, inner.stop + 1));
                assert(covers(s, seq![close], inner.stop, inner.stop + 1));
                lemma_covers_joins(
                    s,
                    leaves(seq![open, fragment]),
                    seq![close],
                    i,
                    inner.stop,
                    inner.stop + 1,
                );
                lemma_covers_joins(
                    s,
                    leaves(seq![open, fragment, close]),
                    leaves(rest.tokens),
                    i,
                    inner.stop + 1,
                    rest.stop,
                );
            }
        } else if s[i] == ')' {
        } else {
            let token = lexeme(s, i);
            lemma_lexeme_bounds(s, i);
            let rest = scan(s, delimiter, token.to);
            lemma_scan_bounds(s, delimiter, token.to);
            lemma_scan_covers(s, delimiter, token.to);
            lemma_leaves_of_one(token);
            lemma_leaves_join(seq![token], rest.tokens);
            assert(covers(s, seq![token].drop_first(), token.to, token.to));
            assert(covers(s, seq![token], i, token.to));
            lemma_covers_joins(s, seq![token], leaves(rest.tokens), i, token.to, rest.stop);
        }
    }
}

/// The leaves of a statement, with only blanks before, between and behind
/// them, make up the characters from its start to the start of the next
/// statement.
pub proof fn lemma_statement_covers(s: Seq<char>, delimiter: Seq<char>, i: int)
    requires
        0 <= i <= s.len(),
        delimiter.len() > 0,
    ensures
        covers(
            s,
            leaves(statement_at(s, delimiter, i).tokens),
            i,
            statement_at(s, delimiter, i).next,
        ),
    decreases s.len() - i,
{
    let head = scan(s, delimiter, i);
    lemma_scan_bounds(s, delimiter, i);
    lemma_scan_covers(s, delimiter, i);
    if head.stop < s.len() {
        if starts_with_at(s, head.stop, delimiter) {
            let end = leaf(TokenKind::StatementDelimiter, head.stop, head.stop + delimiter.len());
            assert(head.tokens.push(end) =~= head.tokens + seq![end]);
            lemma_leaves_of_one(end);
            lemma_leaves_join(head.tokens, seq![end]);
            assert(covers(s, seq![end].drop_first(), end.to, end.to));
            assert(covers(s, seq![end], head.stop, end.to));
            lemma_covers_joins(s, leaves(head.tokens), seq![end], i, head.stop, end.to);
        } else {
            let close = leaf(TokenKind::Any, head.stop, head.stop + 1);
            let rest = statement_at(s, delimiter, head.stop + 1);
            lemma_statement_bounds(s, delimiter, head.stop + 1);
            lemma_statement_covers(s, delimiter, head.stop + 1);
            assert(head.tokens.push(close) =~= head.tokens + seq![close]);
            lemma_leaves_of_one(close);
            lemma_leaves_join(head.tokens, seq![close]);
            lemma_leaves_join(head.tokens.push(close), rest.tokens);
            assert(covers(s, seq![close].drop_first(), close.to, close.to));
            assert(covers(s, seq![close], head.stop, close.to));
            lemma_covers_joins(s, leaves(head.tokens), seq![close], i, head.stop, close.to);
            lemma_covers_joins(
                s,
                leaves(head.tokens.push(close)),
                leaves(rest.tokens),
                i,
                close.to,
                rest.next,
            );
        }
    }
}

/// The leaves of tokens that follow each other lie between the start of the
/// first token and the end of the last.
pub proof fn lemma_leaves_within(spans: Seq<Span>, lo: int, hi: int)
    requires
        in_order(spans, lo, hi),
    ensures
        forall|k: int|
            0 <= k < leaves(spans).len() ==> spans.first().from <= (#[trigger] leaves(
                spans,
            )[k]).from && leaves(spans)[k].to <= spans.last().to,
    decreases spans,
{
    if spans.len() > 0 {
        let front = spans.drop_last();
        let last = spans.last();
        lemma_leaves_within(front, lo, hi);
        if last.kind == TokenKind::Fragment {
            lemma_leaves_within(last.children, last.from, last.to);
        }
        assert forall|k: int| 0 <= k < leaves(spans).len() implies spans.first().from <= (
        #[trigger] leaves(spans)[k]).from && leaves(spans)[k].to <= spans.last().to by {
            if k < leaves(front).len() {
                assert(leaves(spans)[k] == leaves(front)[k]);
                assert(front.first() == spans[0]);
                assert(front.last() == spans[spans.len() - 2]);
            } else {
                let j = k - leaves(front).len();
                assert(leaves(spans)[k] == span_leaves(last)[j]);
                if spans.len() > 1 {
                    assert(spans[0].to <= spans[spans.len() - 1].from);
                }
                if last.kind == TokenKind::Fragment {
                    assert(last.children.first() == last.children[0]);
                    assert(last.children.last() == last.children[last.children.len() - 1]);
                }
            }
        }
    }
}

/// Spans that cover a range cover each part of it that holds them all.
pub proof fn lemma_covers_narrows(
    s: Seq<char>,
    spans: Seq<Span>,
    from: int,
    to: int,
    inner_from: int,
    inner_to: int,
)
    requires
        covers(s, spans, from, to),
        from <= inner_from <= inner_to <= to,
        forall|k: int|
            0 <= k < spans.len() ==> inner_from <= (#[trigger] spans[k]).from && spans[k].to
                <= inner_to,
    ensures
        covers(s, spans, inner_from, inner_to),
    decreases spans.len(),
{
    if spans.len() > 0 {
        let rest = spans.drop_first();
        lemma_covers_bounds(s, rest, spans[0].to, to);
        assert forall|k: int| 0 <= k < rest.len() implies spans[0].to <= (#[trigger] rest[k]).from
            && rest[k].to <= inner_to by {
            assert(rest[k] == spans[k + 1]);
        }
        lemma_covers_narrows(s, rest, spans[0].to, to, spans[0].to, inner_to);
    }
}

/// Spans with nothing between them cut out of the text, one behind the other,
/// the range that they make up.
pub proof fn lemma_gapless_concat(s: Seq<char>, spans: Seq<Span>, from: int, to: int)
    requires
        gapless(spans, from, to),
        0 <= from,
        to <= s.len(),
    ensures
        concat(texts_of(s, spans)) == s.subrange(from, to),
    decreases spans.len(),
{
    if spans.len() == 0 {
        assert(concat(texts_of(s, spans)) =~= s.subrange(from, to));
    } else {
        let rest = spans.drop_first();
        lemma_gapless_concat(s, rest, spans[0].to, to);
        assert(texts_of(s, spans).drop_first() =~= texts_of(s, rest));
        assert(texts_of(s, spans)[0] == s.subrange(from, spans[0].to));
        assert(s.subrange(from, spans[0].to) + s.subrange(spans[0].to, to) =~= s.subrange(
            from,
            to,
        ));
    }
}

/// The characters of a statement: those from the start of its first token
/// up to the end of its last.
pub open spec fn statement_text(s: Seq<char>, spans: Seq<Span>) -> Seq<char> {
    s.subrange(spans.first().from, spans.last().to)
}

/// Round trip: the text of a statement is made up of the texts of its
/// tokens, those inside its fragments included, in their order, with nothing
/// but blanks between them. No character of the statement is lost, and none
/// is in two tokens.
pub proof fn law_round_trip(s: Seq<char>, delimiter: Seq<char>, i: int)
    requires
        0 <= i <= s.len(),
        delimiter.len() > 0,
        statement_at(s, delimiter, i).tokens.len() > 0,
    ensures
        ({
            let spans = statement_at(s, delimiter, i).tokens;
            &&& 0 <= spans.first().from <= spans.last().to <= s.len()
            &&& covers(s, leaves(spans), spans.first().from, spans.last().to)
            &&& flat_texts(spans_view(s, spans)) == texts_of(s, leaves(spans))
        }),
{
    let statement = statement_at(s, delimiter, i);
    let spans = statement.tokens;
    lemma_statement_bounds(s, delimiter, i);
    lemma_statement_in_order(s, delimiter, i);
    lemma_statement_covers(s, delimiter, i);
    lemma_leaves_within(spans, i, statement.next);
    lemma_flat_texts(s, spans);
    assert(spans.first() == spans[0]);
    assert(spans.last() == spans[spans.len() - 1]);
    if spans.len() > 1 {
        assert(spans[0].to <= spans[spans.len() - 1].from);
    }
    lemma_covers_narrows(
        s,
        leaves(spans),
        i,
        statement.next,
        spans.first().from,
        spans.last().to,
    );
}

/// Round trip, where no blank stands between the tokens of a statement: the
/// texts of its tokens, those inside its fragments included, written one
/// behind the other, are the text of the statement.
pub proof fn law_round_trip_without_blanks(s: Seq<char>, delimiter: Seq<char>, i: int)
    requires
        0 <= i <= s.len(),
        delimiter.len() > 0,
        statement_at(s, delimiter, i).tokens.len() > 0,
        gapless(
            leaves(statement_at(s, delimiter, i).tokens),
            statement_at(s, delimiter, i).tokens.first().from,
            statement_at(s, delimiter, i).tokens.last().to,
        ),
    ensures
        concat(flat_texts(spans_view(s, statement_at(s, delimiter, i).tokens))) == statement_text(
            s,
            statement_at(s, delimiter, i).tokens,
        ),
{
    let spans = statement_at(s, delimiter, i).tokens;
    law_round_trip(s, delimiter, i);
    lemma_gapless_concat(s, leaves(spans), spans.first().from, spans.last().to);
}

/// Totality: a text has no more statements than characters behind the index
/// at which the search for them starts, so that taking one statement after
/// the other comes to an end.
pub proof fn law_statements_are_finite(s: Seq<char>, delimiter: Seq<char>, i: int)
    requires
        0 <= i <= s.len(),
    ensures
        statements_from(s, delimiter, i).len() <= s.len() - i,
    decreases s.len() - i,
{
    let first = statement_at(s, delimiter, i);
    if i < s.len() && delimiter.len() > 0 && first.tokens.len() > 0 {
        lemma_statement_bounds(s, delimiter, i);
        law_statements_are_finite(s, delimiter, first.next);
    }
}

} // verus!
