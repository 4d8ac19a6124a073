//! A statement: its tokens, and what can be told of it from them alone.
use crate::chars::{ascii_upper, is_letter, letter, to_ascii_upper};
use crate::grammar::{spans_view, statement_at, Span};
use crate::laws::{
    covers, law_positions_increase, law_round_trip, leaves, lemma_end_position,
    lemma_start_position, lemma_statement_in_order, positions_increase, statement_text, texts_of,
};
use crate::text::{chars_of, offset_at, slice};
use crate::tokens::{flat_texts, texts, TokenKind, TokenView, Tokens};
use crate::Position;
use vstd::prelude::*;

verus! {

/// Whether a token is a keyword: an identifier or keyword made of ASCII
/// letters only.
pub open spec fn is_keyword(t: TokenView) -> bool {
    &&& t.kind == TokenKind::IdentifierOrKeyword
    &&& forall|k: int| 0 <= k < t.text.len() ==> is_letter(#[trigger] t.text[k])
}

/// The texts of the keywords among the tokens, in their order.
pub open spec fn keywords_of(tokens: Seq<TokenView>) -> Seq<Seq<char>>
    decreases tokens.len(),
{
    if tokens.len() == 0 {
        seq![]
    } else if is_keyword(tokens.last()) {
        keywords_of(tokens.drop_last()).push(tokens.last().text)
    } else {
        keywords_of(tokens.drop_last())
    }
}

/// Whether `text` is `word` but for the case of its ASCII letters; `word` is
/// written in upper case.
pub open spec fn is_word(text: Seq<char>, word: Seq<char>) -> bool {
    &&& text.len() == word.len()
    &&& forall|k: int| 0 <= k < text.len() ==> ascii_upper(#[trigger] text[k]) == word[k]
}

/// Whether one of `keywords` is `word`.
pub open spec fn has_word(keywords: Seq<Seq<char>>, word: Seq<char>) -> bool {
    exists|k: int| 0 <= k < keywords.len() && is_word(#[trigger] keywords[k], word)
}

/// Whether a statement with the keywords `keywords` looks like one that
/// returns rows:
/// - it starts with `SHOW`, `DESCRIBE`, `EXPLAIN`, `VALUES`, `LIST` or
///   `PRAGMA`;
/// - it starts with `WITH` and holds `SELECT` or `RETURNING`;
/// - it starts with `INSERT`, `UPDATE` or `DELETE` and holds `RETURNING`;
/// - it starts with `SELECT` and does not hold `INTO`.
pub open spec fn looks_like_query(keywords: Seq<Seq<char>>) -> bool {
    keywords.len() > 0 && {
        let first = keywords[0];
        ||| is_word(first, "SHOW"@)
        ||| is_word(first, "DESCRIBE"@)
        ||| is_word(first, "EXPLAIN"@)
        ||| is_word(first, "VALUES"@)
        ||| is_word(first, "LIST"@)
        ||| is_word(first, "PRAGMA"@)
        ||| is_word(first, "WITH"@) && (has_word(keywords, "SELECT"@) || has_word(
            keywords,
            "RETURNING"@,
        ))
        ||| (is_word(first, "INSERT"@) || is_word(first, "UPDATE"@) || is_word(first, "DELETE"@))
            && has_word(keywords, "RETURNING"@)
        ||| is_word(first, "SELECT"@) && !has_word(keywords, "INTO"@)
    }
}

/// Whether `text` is made of ASCII letters only.
pub fn all_letters(text: &str) -> (r: bool)
    ensures
        r == forall|k: int| 0 <= k < text@.len() ==> is_letter(#[trigger] text@[k]),
{
    let chars = chars_of(text);
    let mut k: usize = 0;
    while k < chars.len()
        invariant
            k <= chars.len(),
            chars@ == text@,
            forall|j: int| 0 <= j < k ==> is_letter(#[trigger] text@[j]),
        decreases chars.len() - k,
    {
        if !letter(chars[k]) {
            return false;
        }
        k += 1;
    }
    true
}

/// Whether `text` is `word` but for the case of its ASCII letters; `word` is
/// written in upper case.
pub fn same_word(text: &str, word: &str) -> (r: bool)
    ensures
        r == is_word(text@, word@),
{
    let a = chars_of(text);
    let b = chars_of(word);
    if a.len() != b.len() {
        return false;
    }
    let mut k: usize = 0;
    while k < a.len()
        invariant
            k <= a.len(),
            a.len() == b.len(),
            a@ == text@,
            b@ == word@,
            forall|j: int| 0 <= j < k ==> ascii_upper(#[trigger] text@[j]) == word@[j],
        decreases a.len() - k,
    {
        if to_ascii_upper(a[k]) != b[k] {
            return false;
        }
        k += 1;
    }
    true
}

/// Whether one of `keywords` is `word`.
pub fn contains_word(keywords: &Vec<&str>, word: &str) -> (r: bool)
    ensures
        r == has_word(texts(keywords@), word@),
{
    let mut k: usize = 0;
    while k < keywords.len()
        invariant
            k <= keywords.len(),
            forall|j: int| 0 <= j < k ==> !is_word(#[trigger] texts(keywords@)[j], word@),
        decreases keywords.len() - k,
    {
        if same_word(keywords[k], word) {
            assert(is_word(texts(keywords@)[k as int], word@));
            return true;
        }
        k += 1;
    }
    false
}

/// One statement of a text: the tokens from where it starts up to and
/// including the delimiter that ends it, or up to the end of the text.
///
/// Only the tokens of the top level are in `tokens`; what stands between
/// parentheses is inside a fragment.
pub struct Statement<'s> {
    /// The text that the statement was found in.
    pub(crate) input: &'s str,
    /// The tokens of the statement.
    pub(crate) tokens: Tokens<'s>,
    /// The delimiter that statements were split at.
    pub(crate) delimiter: Ghost<Seq<char>>,
    /// The index of the character at which the search for the statement
    /// started.
    pub(crate) from: Ghost<int>,
}

impl<'s> Statement<'s> {
    /// The characters of the text that the statement was found in.
    pub closed spec fn source(&self) -> Seq<char> {
        self.input@
    }

    /// The delimiter that statements were split at.
    pub closed spec fn separator(&self) -> Seq<char> {
        self.delimiter@
    }

    /// The index of the character at which the search for the statement
    /// started.
    pub closed spec fn origin(&self) -> int {
        self.from@
    }

    /// The tokens of the statement as spans of the text.
    pub open spec fn spans(&self) -> Seq<Span> {
        statement_at(self.source(), self.separator(), self.origin()).tokens
    }

    /// The statement found in `input` from index `from` on, with the tokens
    /// `tokens`.
    pub(crate) fn new(
        input: &'s str,
        tokens: Tokens<'s>,
        Ghost(delimiter): Ghost<Seq<char>>,
        Ghost(from): Ghost<int>,
    ) -> (r: Self)
        requires
            delimiter.len() > 0,
            0 <= from <= input@.len(),
            offset_at(input@, input@.len() as int) <= usize::MAX,
            statement_at(input@, delimiter, from).tokens.len() > 0,
            tokens@ == spans_view(input@, statement_at(input@, delimiter, from).tokens),
        ensures
            r.wf(),
            r.source() == input@,
            r.separator() == delimiter,
            r.origin() == from,
    {
        Statement { input, tokens, delimiter: Ghost(delimiter), from: Ghost(from) }
    }

    /// What holds of every statement that the tokenizer hands out: it has a
    /// token, its tokens are those of the statement that starts at
    /// `origin()`, and its text fits in memory.
    pub open spec fn wf(&self) -> bool {
        &&& self.separator().len() > 0
        &&& 0 <= self.origin() <= self.source().len()
        &&& offset_at(self.source(), self.source().len() as int) <= usize::MAX
        &&& self.spans().len() > 0
        &&& self@ == spans_view(self.source(), self.spans())
    }
}

impl<'s> Statement<'s> {
    /// The whole text that the statement was found in.
    pub fn input(&self) -> (r: &'s str)
        ensures
            r@ == self.source(),
    {
        self.input
    }

    /// The tokens of the statement.
    pub fn tokens(&self) -> (r: &Tokens<'s>)
        ensures
            r@ == self@,
    {
        &self.tokens
    }

    /// The position of the statement's first character: the start of its
    /// first token.
    pub fn start(&self) -> (r: &Position)
        requires
            self.wf(),
        ensures
            *r == self@.first().start,
    {
        assert(self.tokens@.len() == self.tokens.0@.len());
        assert(self.tokens@[0] == self.tokens.0@[0]@);
        &self.tokens.0[0].start
    }

    /// The end of the statement: the end of its last token.
    pub fn end(&self) -> (r: &Position)
        requires
            self.wf(),
        ensures
            *r == self@.last().end,
    {
        assert(self.tokens@.len() == self.tokens.0@.len());
        assert(self.tokens@[self.tokens@.len() - 1] == self.tokens.0@[self.tokens@.len() - 1]@);
        &self.tokens.0[self.tokens.0.len() - 1].end
    }
}

impl<'s> Statement<'s> {
    /// The text of the statement: the input from the start of its first
    /// token up to the end of its last.
    pub fn sql(&self) -> (r: &'s str)
        requires
            self.wf(),
        ensures
            r@ == statement_text(self.source(), self.spans()),
    {
        let ghost s = self.input@;
        let ghost spans = self.spans();
        let n = self.tokens.0.len();
        proof {
            law_round_trip(s, self.delimiter@, self.from@);
            lemma_statement_in_order(s, self.delimiter@, self.from@);
            assert(spans.first() == spans[0]);
            assert(spans.last() == spans[spans.len() - 1]);
            assert(self.tokens@.len() == self.tokens.0@.len());
            assert(self.tokens@[0] == self.tokens.0@[0]@);
            assert(self.tokens@[n - 1] == self.tokens.0@[n - 1]@);
        }
        proof {
            lemma_start_position(s, spans.first().from);
            lemma_end_position(s, spans.last().to);
        }
        slice(
            self.input,
            self.tokens.0[0].start.offset,
            self.tokens.0[n - 1].end.offset,
            Ghost(spans.first().from),
            Ghost(spans.last().to),
        )
    }

    /// The keywords of the statement: the texts of its tokens that are
    /// identifiers or keywords made of ASCII letters only. What stands
    /// inside a fragment is not looked at.
    pub fn keywords(&self) -> (r: Vec<&'s str>)
        ensures
            texts(r@) == keywords_of(self@),
    {
        let mut found: Vec<&'s str> = Vec::new();
        let mut k: usize = 0;
        assert(self.tokens@.take(0) =~= Seq::empty());
        assert(texts(found@) =~= keywords_of(self.tokens@.take(0)));
        while k < self.tokens.0.len()
            invariant
                k <= self.tokens.0.len(),
                self.tokens@.len() == self.tokens.0.len(),
                texts(found@) == keywords_of(self.tokens@.take(k as int)),
            decreases self.tokens.0.len() - k,
        {
            let token = &self.tokens.0[k];
            let ghost part = self.tokens@.take(k + 1);
            proof {
                assert(part.drop_last() =~= self.tokens@.take(k as int));
                assert(part.last() == token@);
            }
            match &token.value {
                crate::tokens::TokenValue::IdentifierOrKeyword(text) => {
                    if all_letters(text) {
                        found.push(text);
                        assert(texts(found@) =~= keywords_of(part));
                    }
                },
                _ => {},
            }
            k += 1;
        }
        assert(self.tokens@.take(k as int) =~= self.tokens@);
        found
    }

    /// Whether the statement holds nothing but comments and statement
    /// delimiters.
    pub fn is_empty(&self) -> (r: bool)
        ensures
            r == forall|k: int|
                0 <= k < self@.len() ==> (#[trigger] self@[k]).kind == TokenKind::Comment
                    || self@[k].kind == TokenKind::StatementDelimiter,
    {
        let mut k: usize = 0;
        while k < self.tokens.0.len()
            invariant
                k <= self.tokens.0.len(),
                self.tokens@.len() == self.tokens.0.len(),
                forall|j: int|
                    0 <= j < k ==> (#[trigger] self.tokens@[j]).kind == TokenKind::Comment
                        || self.tokens@[j].kind == TokenKind::StatementDelimiter,
            decreases self.tokens.0.len() - k,
        {
            let token = &self.tokens.0[k];
            assert(self.tokens@[k as int] == token@);
            if !(token.is_comment() || token.is_statement_delimiter()) {
                return false;
            }
            k += 1;
        }
        true
    }

    /// Whether the statement looks like one that returns rows. This is a
    /// guess from the keywords of the statement, not a judgment of its
    /// grammar.
    pub fn is_query(&self) -> (r: bool)
        ensures
            r == looks_like_query(keywords_of(self@)),
    {
        let keywords = self.keywords();
        if keywords.len() == 0 {
            return false;
        }
        let first = keywords[0];
        assert(texts(keywords@)[0] == first@);
        same_word(first, "SHOW") || same_word(first, "DESCRIBE") || same_word(first, "EXPLAIN")
            || same_word(first, "VALUES") || same_word(first, "LIST") || same_word(
            first,
            "PRAGMA",
        ) || (same_word(first, "WITH") && (contains_word(&keywords, "SELECT") || contains_word(
            &keywords,
            "RETURNING",
        ))) || ((same_word(first, "INSERT") || same_word(first, "UPDATE") || same_word(
            first,
            "DELETE",
        )) && contains_word(&keywords, "RETURNING")) || (same_word(first, "SELECT")
            && !contains_word(&keywords, "INTO"))
    }
}

impl<'s> Statement<'s> {
    /// What holds of the tokens of every statement: their positions only
    /// increase, and their leaves, with nothing but blanks between them,
    /// make up the text of the statement.
    pub proof fn lemma_tokens(&self)
        requires
            self.wf(),
        ensures
            positions_increase(self@),
            covers(
                self.source(),
                leaves(self.spans()),
                self.spans().first().from,
                self.spans().last().to,
            ),
            flat_texts(self@) == texts_of(self.source(), leaves(self.spans())),
    {
        law_positions_increase(self.source(), self.separator(), self.origin());
        law_round_trip(self.source(), self.separator(), self.origin());
    }
}

impl<'s> View for Statement<'s> {
    type V = Seq<crate::tokens::TokenView>;

    closed spec fn view(&self) -> Seq<crate::tokens::TokenView> {
        self.tokens@
    }
}

} // verus!
