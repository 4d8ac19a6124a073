//! What a caller may set before a text is split into statements.
use vstd::prelude::*;

verus! {

/// The options of the tokenizer.
#[derive(Debug, Clone)]
pub struct Options {
    /// The delimiter that separates statements. The default is `;`. It must
    /// not be empty.
    pub statement_delimiter: String,
}

impl Default for Options {
    fn default() -> (o: Self)
        ensures
            o.statement_delimiter@ == seq![';'],
    {
        proof {
            reveal_strlit(";");
        }
        let o = Options { statement_delimiter: ";".to_string() };
        assert(o.statement_delimiter@ =~= seq![';']);
        o
    }
}

/// Why a text cannot be split into statements.
#[derive(Debug, Clone, Copy, PartialEq, Eq, Structural)]
pub enum Error {
    /// The statement delimiter is empty.
    EmptyStatementDelimiter,
}

impl Error {
    /// What went wrong, in words.
    pub fn message(&self) -> (m: &'static str)
        ensures
            m@ == "the statement delimiter must not be empty"@,
    {
        "the statement delimiter must not be empty"
    }
}

} // verus!
