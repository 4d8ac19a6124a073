//! A loose, non-validating SQL tokenizer and statement splitter.
//!
//! The input is cut into statements at a configurable delimiter, and every
//! statement into a tree of tokens with their positions. Nothing is held
//! against any SQL grammar: malformed text still yields tokens.
use vstd::prelude::*;

pub mod chars;
pub mod cursor;
pub mod grammar;
pub mod laws;
pub mod options;
pub mod statement;
pub mod text;
pub mod tokenizer;
pub mod tokens;

pub use crate::options::{Error, Options};
pub use crate::statement::Statement;
pub use crate::tokenizer::Tokenizer;
pub use crate::tokens::{Token, TokenKind, TokenValue, Tokens};

verus! {

/// A place in the input.
///
/// Lines and columns count characters and start at 1; the offset counts
/// bytes and starts at 0. The start of a token is the place of its first
/// character. The end of a token has the line and column of its last
/// character and the offset of the byte that follows it, so that
/// `&input[start.offset..end.offset]` is the token's text.
#[derive(Debug, Clone, Copy, PartialEq, Eq, Structural)]
pub struct Position {
    /// Line number (1-based).
    pub line: usize,
    /// Column number (1-based), counted in characters.
    pub column: usize,
    /// Byte offset in the input (0-based).
    pub offset: usize,
}

impl Position {
    /// Creates a position from its three coordinates.
    pub fn new(line: usize, column: usize, offset: usize) -> (p: Self)
        ensures
            p.line == line,
            p.column == column,
            p.offset == offset,
    {
        Self { line, column, offset }
    }
}

/// Starts to split `sql` into statements at each `;`. The statements are
/// found one by one, as they are asked for.
pub fn loose_sqlparse<'s>(sql: &'s str) -> (t: Tokenizer<'s>)
    ensures
        t.wf(),
        t.text() == sql,
        t.source() == sql@,
        t.separator() == seq![';'],
        t.position() == 0,
{
    match Tokenizer::new(sql, Options::default()) {
        Ok(t) => t,
        Err(_) => vstd::pervasive::unreached(),
    }
}

/// Starts to split `sql` into statements at each occurrence of the delimiter
/// that `options` holds. An empty delimiter is refused.
pub fn loose_sqlparse_with_options<'s>(sql: &'s str, options: Options) -> (r: Result<
    Tokenizer<'s>,
    Error,
>)
    ensures
        r is Err <==> options.statement_delimiter@.len() == 0,
        r is Err ==> r->Err_0 == Error::EmptyStatementDelimiter,
        r is Ok ==> {
            &&& r->Ok_0.wf()
            &&& r->Ok_0.text() == sql
            &&& r->Ok_0.source() == sql@
            &&& r->Ok_0.separator() == options.statement_delimiter@
            &&& r->Ok_0.position() == 0
        },
{
    Tokenizer::new(sql, options)
}

/// The same as [`loose_sqlparse`].
pub fn parse<'s>(sql: &'s str) -> (t: Tokenizer<'s>)
    ensures
        t.wf(),
        t.text() == sql,
        t.source() == sql@,
        t.separator() == seq![';'],
        t.position() == 0,
{
    loose_sqlparse(sql)
}

/// The same as [`loose_sqlparse_with_options`].
pub fn parse_with_options<'s>(sql: &'s str, options: Options) -> (r: Result<Tokenizer<'s>, Error>)
    ensures
        r is Err <==> options.statement_delimiter@.len() == 0,
        r is Err ==> r->Err_0 == Error::EmptyStatementDelimiter,
        r is Ok ==> {
            &&& r->Ok_0.wf()
            &&& r->Ok_0.text() == sql
            &&& r->Ok_0.source() == sql@
            &&& r->Ok_0.separator() == options.statement_delimiter@
            &&& r->Ok_0.position() == 0
        },
{
    loose_sqlparse_with_options(sql, options)
}

} // verus!
