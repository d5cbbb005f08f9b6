//! The lexical error model: the two kinds of scan-time failure, each carrying
//! the source line on which it was detected.

use vstd::prelude::*;

verus! {

/// The two error conditions a scan can meet.  Errors accumulate; they never
/// abort the scan.
#[derive(Debug, Clone, PartialEq, Eq)]
pub enum LexicalErrorType {
    /// A character that begins no lexeme.
    UnexpectedCharacter(char),
    /// A string literal still open when the input ends.
    UnterminatedString,
}

/// One collected lexical error: its kind and the line it was detected on.
#[derive(Debug, Clone, PartialEq, Eq)]
pub struct LexicalError {
    typ: LexicalErrorType,
    line: usize,
}

/// The mathematical value of a [`LexicalError`].
#[verifier::ext_equal]
pub ghost struct SpecLexicalError {
    pub typ: LexicalErrorType,
    pub line: int,
}

impl View for LexicalError {
    type V = SpecLexicalError;

    closed spec fn view(&self) -> SpecLexicalError {
        SpecLexicalError { typ: self.typ, line: self.line as int }
    }
}

impl LexicalError {
    pub fn new(typ: LexicalErrorType, line: usize) -> (e: Self)
        ensures
            e@ == (SpecLexicalError { typ, line: line as int }),
    {
        Self { typ, line }
    }

    /// Which of the two error conditions was met.
    pub fn typ(&self) -> (t: &LexicalErrorType)
        ensures
            *t == self@.typ,
    {
        &self.typ
    }

    /// The source line the error was detected on.
    pub fn line(&self) -> (n: usize)
        ensures
            n as int == self@.line,
    {
        self.line
    }
}

/// The values of a sequence of collected errors.
pub open spec fn error_views(es: Seq<LexicalError>) -> Seq<SpecLexicalError> {
    es.map_values(|e: LexicalError| e@)
}

/// Appending an error appends its value.
pub proof fn lemma_error_views_push(es: Seq<LexicalError>, e: LexicalError)
    ensures
        error_views(es.push(e)) == error_views(es).push(e@),
{
    assert(error_views(es.push(e)) =~= error_views(es).push(e@));
}

} // verus!
