//! Tokens, and the tree that they form: what stands between two parentheses
//! is one token of its own, a fragment, that holds the tokens found there.
use crate::Position;
use vstd::prelude::*;
use vstd::std_specs::iter::IteratorSpec;
use vstd::string::StringExecFns;

verus! {

/// What a token is, without its text.
#[derive(Debug, Clone, Copy, PartialEq, Eq, Structural)]
pub enum TokenKind {
    Any,
    Comment,
    QuotedIdentifierOrConstant,
    NumericConstant,
    IdentifierOrKeyword,
    Operator,
    StatementDelimiter,
    ParameterMarker,
    Delimited,
    Fragment,
}

/// What a token holds: its text, under the name of its kind, or, for a
/// fragment, the tokens between two parentheses.
#[derive(Debug)]
pub enum TokenValue<'s> {
    /// A token that is none of the others: a punctuation character such as
    /// a parenthesis, a comma or a dot.
    Any(&'s str),
    /// A comment, from `--` or `#` to the end of the line, or from `/*` to
    /// the `*/` that closes it; comments of the second form nest.
    Comment(&'s str),
    /// A text between single quotes, double quotes or backticks, with what
    /// introduces it (`E'..'`, `N'..'`, `B'..'`, `X'..'`, `_latin1'..'`,
    /// `U&".."`). A quote written twice stands for itself.
    QuotedIdentifierOrConstant(&'s str),
    /// A number: decimal with an optional fraction and exponent, or
    /// hexadecimal (`0x`), octal (`0o`) or binary (`0b`); underscores may
    /// group the digits.
    NumericConstant(&'s str),
    /// A name: a letter or an underscore, followed by letters, digits,
    /// underscores and dollar signs.
    IdentifierOrKeyword(&'s str),
    /// An operator of one to three characters, such as `+`, `<=` or `!~*`.
    Operator(&'s str),
    /// The delimiter that ends a statement.
    StatementDelimiter(&'s str),
    /// A place for a value bound later: `?`, `$1`, `:name`, `@name`.
    ParameterMarker(&'s str),
    /// A text between two occurrences of one dollar-quote tag, as in
    /// `$tag$ .. $tag$`.
    Delimited(&'s str),
    /// The tokens between an opening parenthesis and what closes it.
    Fragment(Tokens<'s>),
}

/// A token with the positions of its first and last character.
#[derive(Debug)]
pub struct Token<'s> {
    /// The value of the token.
    pub value: TokenValue<'s>,
    /// The position of the token's first character.
    pub start: Position,
    /// The line and column of the token's last character, and the offset of
    /// the byte that follows it.
    pub end: Position,
}

/// A sequence of tokens in the order of the source.
#[derive(Debug)]
pub struct Tokens<'s>(pub Vec<Token<'s>>);

/// A token as a mathematical value.
pub ghost struct TokenView {
    pub kind: TokenKind,
    /// The text of a token that is no fragment.
    pub text: Seq<char>,
    /// The tokens of a fragment.
    pub children: Seq<TokenView>,
    pub start: Position,
    pub end: Position,
}

/// The texts of a token's leaves, from left to right: its own text, or for a
/// fragment those of the leaves of its tokens.
pub open spec fn leaf_texts(t: TokenView) -> Seq<Seq<char>>
    decreases t,
{
    if t.kind == TokenKind::Fragment {
        flat_texts(t.children)
    } else {
        seq![t.text]
    }
}

/// The texts of the leaves of a sequence of tokens, from left to right.
pub open spec fn flat_texts(ts: Seq<TokenView>) -> Seq<Seq<char>>
    decreases ts,
{
    if ts.len() == 0 {
        seq![]
    } else {
        flat_texts(ts.drop_last()) + leaf_texts(ts.last())
    }
}

/// The texts one behind the other.
pub open spec fn concat(texts: Seq<Seq<char>>) -> Seq<char>
    decreases texts.len(),
{
    if texts.len() == 0 {
        seq![]
    } else {
        texts[0] + concat(texts.drop_first())
    }
}

/// One more text behind the others goes behind what they make up.
pub proof fn lemma_concat_push(texts: Seq<Seq<char>>, last: Seq<char>)
    ensures
        concat(texts.push(last)) == concat(texts) + last,
    decreases texts.len(),
{
    if texts.len() == 0 {
        assert(texts.push(last).drop_first() =~= Seq::<Seq<char>>::empty());
        assert(concat(Seq::<Seq<char>>::empty()) =~= Seq::<char>::empty());
        assert(texts.push(last)[0] == last);
        assert(concat(texts.push(last)) =~= concat(texts) + last);
    } else {
        assert(texts.push(last).drop_first() =~= texts.drop_first().push(last));
        lemma_concat_push(texts.drop_first(), last);
        assert(concat(texts.push(last)) =~= concat(texts) + last);
    }
}

/// The texts that a vector of string slices holds.
pub open spec fn texts(v: Seq<&str>) -> Seq<Seq<char>> {
    Seq::new(v.len(), |i: int| v[i]@)
}

/// Whether `s` is the one character `c`.
pub fn is_char(s: &str, c: char) -> (r: bool)
    ensures
        r == (s@ == seq![c]),
{
    broadcast use vstd::string::group_string_axioms;

    let mut it = s.chars();
    let first = it.next();
    let second = it.next();
    let r = first == Some(c) && second.is_none();
    proof {
        if r {
            assert(s@ =~= seq![c]);
        }
    }
    r
}

impl<'s> TokenValue<'s> {
    /// The kind of this value.
    pub open spec fn spec_kind(&self) -> TokenKind {
        match self {
            TokenValue::Any(_) => TokenKind::Any,
            TokenValue::Comment(_) => TokenKind::Comment,
            TokenValue::QuotedIdentifierOrConstant(_) => TokenKind::QuotedIdentifierOrConstant,
            TokenValue::NumericConstant(_) => TokenKind::NumericConstant,
            TokenValue::IdentifierOrKeyword(_) => TokenKind::IdentifierOrKeyword,
            TokenValue::Operator(_) => TokenKind::Operator,
            TokenValue::StatementDelimiter(_) => TokenKind::StatementDelimiter,
            TokenValue::ParameterMarker(_) => TokenKind::ParameterMarker,
            TokenValue::Delimited(_) => TokenKind::Delimited,
            TokenValue::Fragment(_) => TokenKind::Fragment,
        }
    }

    /// The text of this value; empty for a fragment.
    pub open spec fn text(&self) -> Seq<char> {
        match self {
            TokenValue::Any(t) => t@,
            TokenValue::Comment(t) => t@,
            TokenValue::QuotedIdentifierOrConstant(t) => t@,
            TokenValue::NumericConstant(t) => t@,
            TokenValue::IdentifierOrKeyword(t) => t@,
            TokenValue::Operator(t) => t@,
            TokenValue::StatementDelimiter(t) => t@,
            TokenValue::ParameterMarker(t) => t@,
            TokenValue::Delimited(t) => t@,
            TokenValue::Fragment(_) => seq![],
        }
    }

    /// The kind of this value.
    #[verifier::when_used_as_spec(spec_kind)]
    pub fn kind(&self) -> (k: TokenKind)
        ensures
            k == self.spec_kind(),
    {
        match self {
            TokenValue::Any(_) => TokenKind::Any,
            TokenValue::Comment(_) => TokenKind::Comment,
            TokenValue::QuotedIdentifierOrConstant(_) => TokenKind::QuotedIdentifierOrConstant,
            TokenValue::NumericConstant(_) => TokenKind::NumericConstant,
            TokenValue::IdentifierOrKeyword(_) => TokenKind::IdentifierOrKeyword,
            TokenValue::Operator(_) => TokenKind::Operator,
            TokenValue::StatementDelimiter(_) => TokenKind::StatementDelimiter,
            TokenValue::ParameterMarker(_) => TokenKind::ParameterMarker,
            TokenValue::Delimited(_) => TokenKind::Delimited,
            TokenValue::Fragment(_) => TokenKind::Fragment,
        }
    }

    /// The value of a token of kind `kind`, which is no fragment, with the
    /// text `text`.
    pub fn leaf(kind: TokenKind, text: &'s str) -> (v: Self)
        requires
            kind != TokenKind::Fragment,
        ensures
            v.spec_kind() == kind,
            v.text() == text@,
    {
        match kind {
            TokenKind::Any => TokenValue::Any(text),
            TokenKind::Comment => TokenValue::Comment(text),
            TokenKind::QuotedIdentifierOrConstant => TokenValue::QuotedIdentifierOrConstant(text),
            TokenKind::NumericConstant => TokenValue::NumericConstant(text),
            TokenKind::IdentifierOrKeyword => TokenValue::IdentifierOrKeyword(text),
            TokenKind::Operator => TokenValue::Operator(text),
            TokenKind::StatementDelimiter => TokenValue::StatementDelimiter(text),
            TokenKind::ParameterMarker => TokenValue::ParameterMarker(text),
            TokenKind::Delimited => TokenValue::Delimited(text),
            TokenKind::Fragment => TokenValue::Any(text),
        }
    }

    /// The text of a value that is no fragment.
    pub fn as_ref(&self) -> (r: &'s str)
        requires
            !(self is Fragment),
        ensures
            r@ == self.text(),
    {
        match self {
            TokenValue::Any(value) => value,
            TokenValue::Comment(value) => value,
            TokenValue::QuotedIdentifierOrConstant(value) => value,
            TokenValue::NumericConstant(value) => value,
            TokenValue::IdentifierOrKeyword(value) => value,
            TokenValue::Operator(value) => value,
            TokenValue::StatementDelimiter(value) => value,
            TokenValue::ParameterMarker(value) => value,
            TokenValue::Delimited(value) => value,
            TokenValue::Fragment(_) => "",
        }
    }
}

impl<'s> Token<'s> {
    /// This token as a mathematical value.
    pub open spec fn model(&self) -> TokenView
        decreases self,
    {
        TokenView {
            kind: self.value.spec_kind(),
            text: self.value.text(),
            children: match self.value {
                TokenValue::Fragment(tokens) => tokens.model(),
                _ => seq![],
            },
            start: self.start,
            end: self.end,
        }
    }

    pub fn new(value: TokenValue<'s>, start: Position, end: Position) -> (t: Self)
        ensures
            t.value == value,
            t.start == start,
            t.end == end,
    {
        Self { value, start, end }
    }

    pub fn is_any(&self) -> (r: bool)
        ensures
            r == (self@.kind == TokenKind::Any),
    {
        matches!(self.value, TokenValue::Any(_))
    }

    pub fn is_numeric_constant(&self) -> (r: bool)
        ensures
            r == (self@.kind == TokenKind::NumericConstant),
    {
        matches!(self.value, TokenValue::NumericConstant(_))
    }

    pub fn is_comment(&self) -> (r: bool)
        ensures
            r == (self@.kind == TokenKind::Comment),
    {
        matches!(self.value, TokenValue::Comment(_))
    }

    pub fn is_quoted_identifier_or_constant(&self) -> (r: bool)
        ensures
            r == (self@.kind == TokenKind::QuotedIdentifierOrConstant),
    {
        matches!(self.value, TokenValue::QuotedIdentifierOrConstant(_))
    }

    pub fn is_fragment(&self) -> (r: bool)
        ensures
            r == (self@.kind == TokenKind::Fragment),
    {
        matches!(self.value, TokenValue::Fragment(_))
    }

    pub fn is_statement_delimiter(&self) -> (r: bool)
        ensures
            r == (self@.kind == TokenKind::StatementDelimiter),
    {
        matches!(self.value, TokenValue::StatementDelimiter(_))
    }

    pub fn is_operator(&self) -> (r: bool)
        ensures
            r == (self@.kind == TokenKind::Operator),
    {
        matches!(self.value, TokenValue::Operator(_))
    }

    pub fn is_delimited(&self) -> (r: bool)
        ensures
            r == (self@.kind == TokenKind::Delimited),
    {
        matches!(self.value, TokenValue::Delimited(_))
    }

    /// Whether this token is an opening or a closing parenthesis.
    pub fn is_parenthesis(&self) -> (r: bool)
        ensures
            r == (self@.kind == TokenKind::Any && (self@.text == seq!['('] || self@.text == seq![
                ')',
            ])),
    {
        match &self.value {
            TokenValue::Any(value) => is_char(value, '(') || is_char(value, ')'),
            _ => false,
        }
    }

    /// Whether this token is a comma.
    pub fn is_comma(&self) -> (r: bool)
        ensures
            r == (self@.kind == TokenKind::Any && self@.text == seq![',']),
    {
        match &self.value {
            TokenValue::Any(value) => is_char(value, ','),
            _ => false,
        }
    }

    pub fn is_identifier_or_keyword(&self) -> (r: bool)
        ensures
            r == (self@.kind == TokenKind::IdentifierOrKeyword),
    {
        matches!(self.value, TokenValue::IdentifierOrKeyword(_))
    }

    pub fn is_parameter_marker(&self) -> (r: bool)
        ensures
            r == (self@.kind == TokenKind::ParameterMarker),
    {
        matches!(self.value, TokenValue::ParameterMarker(_))
    }

    /// The tokens of a fragment; `None` for any other token.
    pub fn children(&self) -> (r: Option<&Tokens<'s>>)
        ensures
            r is Some == (self@.kind == TokenKind::Fragment),
            r is Some ==> r->0@ == self@.children && self.value == TokenValue::Fragment(*r->0),
    {
        match &self.value {
            TokenValue::Fragment(tokens) => Some(tokens),
            _ => None,
        }
    }

    /// Appends the texts of this token's leaves to `out`.
    fn collect_texts(&self, out: &mut Vec<&'s str>)
        ensures
            texts(final(out)@) == texts(old(out)@) + leaf_texts(self@),
        decreases self,
    {
        match &self.value {
            TokenValue::Fragment(tokens) => {
                tokens.collect_texts(out);
            },
            _ => {
                out.push(self.value.as_ref());
                assert(texts(out@) =~= texts(old(out)@) + leaf_texts(self@));
            },
        }
    }

    /// The texts of this token's leaves, from left to right: its own text, or
    /// for a fragment those of the leaves of its tokens.
    pub fn as_str_array(&self) -> (r: Vec<&'s str>)
        ensures
            texts(r@) == leaf_texts(self@),
    {
        let mut out: Vec<&'s str> = Vec::new();
        self.collect_texts(&mut out);
        assert(texts(out@) =~= leaf_texts(self@));
        out
    }
}

impl<'s> Token<'s> {
    /// The text of this token: its own, or for a fragment the texts of its
    /// leaves one behind the other, without the blanks that stood between
    /// them.
    pub fn to_string(&self) -> (r: String)
        ensures
            r@ == concat(leaf_texts(self@)),
    {
        let parts = self.as_str_array();
        let mut out = String::new();
        let mut k: usize = 0;
        assert(texts(parts@).take(0) =~= Seq::empty());
        while k < parts.len()
            invariant
                k <= parts.len(),
                out@ == concat(texts(parts@).take(k as int)),
            decreases parts.len() - k,
        {
            out.append(parts[k]);
            proof {
                let before = texts(parts@).take(k as int);
                assert(texts(parts@).take(k + 1) =~= before.push(parts@[k as int]@));
                lemma_concat_push(before, parts@[k as int]@);
            }
            k += 1;
        }
        assert(texts(parts@).take(k as int) =~= texts(parts@));
        out
    }
}

impl<'s> View for Token<'s> {
    type V = TokenView;

    open spec fn view(&self) -> TokenView {
        self.model()
    }
}

impl<'s> Tokens<'s> {
    /// These tokens as mathematical values.
    pub open spec fn model(&self) -> Seq<TokenView>
        decreases self,
    {
        Seq::new(
            self.0@.len(),
            |i: int|
                if 0 <= i < self.0@.len() {
                    self.0@[i].model()
                } else {
                    arbitrary()
                },
        )
    }

    /// Creates an empty sequence of tokens.
    pub fn new() -> (t: Self)
        ensures
            t@ == Seq::<TokenView>::empty(),
    {
        let t = Tokens(Vec::new());
        assert(t@ =~= Seq::<TokenView>::empty());
        t
    }

    /// Appends one token.
    pub fn push(&mut self, token: Token<'s>)
        ensures
            final(self)@ == old(self)@.push(token@),
    {
        self.0.push(token);
        assert(self@ =~= old(self)@.push(token@));
    }

    /// Appends the texts of the leaves of these tokens to `out`.
    fn collect_texts(&self, out: &mut Vec<&'s str>)
        ensures
            texts(final(out)@) == texts(old(out)@) + flat_texts(self@),
        decreases self,
    {
        let mut i: usize = 0;
        while i < self.0.len()
            invariant
                i <= self.0.len(),
                texts(out@) == texts(old(out)@) + flat_texts(self@.take(i as int)),
            decreases self.0.len() - i,
        {
            let ghost before = out@;
            self.0[i].collect_texts(out);
            proof {
                let part = self@.take(i + 1);
                assert(part.drop_last() =~= self@.take(i as int));
                assert(part.last() == self.0[i as int]@);
                assert(texts(out@) =~= texts(old(out)@) + flat_texts(part));
            }
            i += 1;
        }
        assert(self@.take(i as int) =~= self@);
    }

    /// The texts of the leaves of these tokens, from left to right.
    pub fn as_str_array(&self) -> (r: Vec<&'s str>)
        ensures
            texts(r@) == flat_texts(self@),
    {
        let mut out: Vec<&'s str> = Vec::new();
        self.collect_texts(&mut out);
        assert(texts(out@) =~= flat_texts(self@));
        out
    }
}

impl<'s> View for Tokens<'s> {
    type V = Seq<TokenView>;

    open spec fn view(&self) -> Seq<TokenView> {
        self.model()
    }
}

impl<'s> Default for Tokens<'s> {
    fn default() -> (t: Self)
        ensures
            t@ == Seq::<TokenView>::empty(),
    {
        Tokens::new()
    }
}

impl<'s> core::ops::Deref for Tokens<'s> {
    type Target = Vec<Token<'s>>;

    fn deref(&self) -> (r: &Vec<Token<'s>>)
        ensures
            *r == self.0,
    {
        &self.0
    }
}

} // verus!
