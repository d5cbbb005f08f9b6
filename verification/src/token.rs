//! The token model: one classified lexeme with its kind, exact text, optional
//! literal payload and source line.

use vstd::prelude::*;

use crate::token_type::TokenType;

verus! {

/// The literal payload a scanned token may carry.  A number literal keeps the
/// exact decimal text of its lexeme; turning that text into a machine float is
/// presentation work left to unverified callers.  The boolean and nil variants
/// are reserved for later pipeline stages.
#[derive(Debug, PartialEq)]
pub enum Literal {
    String(String),
    Number(String),
    Boolean(bool),
    Nil,
}

/// The mathematical value of a [`Literal`].
#[verifier::ext_equal]
pub ghost enum SpecLiteral {
    Str(Seq<char>),
    Num(Seq<char>),
    Bool(bool),
    Nil,
}

impl View for Literal {
    type V = SpecLiteral;

    open spec fn view(&self) -> SpecLiteral {
        match self {
            Literal::String(s) => SpecLiteral::Str(s@),
            Literal::Number(s) => SpecLiteral::Num(s@),
            Literal::Boolean(b) => SpecLiteral::Bool(*b),
            Literal::Nil => SpecLiteral::Nil,
        }
    }
}

/// The value of an optional literal payload.
pub open spec fn literal_view(l: Option<Literal>) -> Option<SpecLiteral> {
    match l {
        Some(lit) => Some(lit@),
        None => None,
    }
}

/// One classified lexeme.  Immutable once created.
#[derive(Debug, PartialEq)]
pub struct Token {
    typ: TokenType,
    lexeme: String,
    literal: Option<Literal>,
    line: usize,
}

/// The mathematical value of a [`Token`].
#[verifier::ext_equal]
pub ghost struct SpecToken {
    pub typ: TokenType,
    pub lexeme: Seq<char>,
    pub literal: Option<SpecLiteral>,
    pub line: int,
}

impl View for Token {
    type V = SpecToken;

    closed spec fn view(&self) -> SpecToken {
        SpecToken {
            typ: self.typ,
            lexeme: self.lexeme@,
            literal: literal_view(self.literal),
            line: self.line as int,
        }
    }
}

impl Token {
    pub fn new(typ: TokenType, lexeme: String, literal: Option<Literal>, line: usize) -> (t: Self)
        ensures
            t@ == (SpecToken {
                typ,
                lexeme: lexeme@,
                literal: literal_view(literal),
                line: line as int,
            }),
    {
        Self { typ, lexeme, literal, line }
    }

    /// The kind this lexeme was classified as.
    pub fn typ(&self) -> (t: TokenType)
        ensures
            t == self@.typ,
    {
        self.typ
    }

    /// The exact matched source text.
    pub fn lexeme(&self) -> (s: &String)
        ensures
            s@ == self@.lexeme,
    {
        &self.lexeme
    }

    /// The literal payload, if the lexeme carries one.
    pub fn literal(&self) -> (l: &Option<Literal>)
        ensures
            literal_view(*l) == self@.literal,
    {
        &self.literal
    }

    /// The source line this token was recognized on.
    pub fn line(&self) -> (n: usize)
        ensures
            n as int == self@.line,
    {
        self.line
    }
}

/// The values of a sequence of tokens.
pub open spec fn token_views(ts: Seq<Token>) -> Seq<SpecToken> {
    ts.map_values(|t: Token| t@)
}

/// Appending a token appends its value.
pub proof fn lemma_token_views_push(ts: Seq<Token>, t: Token)
    ensures
        token_views(ts.push(t)) == token_views(ts).push(t@),
{
    assert(token_views(ts.push(t)) =~= token_views(ts).push(t@));
}

} // verus!
