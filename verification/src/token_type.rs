//! The closed catalog of lexeme categories, together with the fixed table of
//! reserved keywords.

use vstd::prelude::*;

verus! {

/// Every category of lexeme the scanner can classify: single-character
/// punctuation, one- or two-character operators, the literal kinds, the
/// sixteen reserved keywords, and the end-of-input marker.
#[derive(Debug, Clone, Copy, PartialEq, Eq)]
pub enum TokenType {
    LeftParen,
    RightParen,
    LeftBrace,
    RightBrace,
    Comma,
    Dot,
    Minus,
    Plus,
    Semicolon,
    Star,
    Bang,
    BangEqual,
    Equal,
    EqualEqual,
    Greater,
    GreaterEqual,
    Less,
    LessEqual,
    Slash,
    String,
    Number,
    Identifier,
    And,
    Class,
    Else,
    False,
    Fun,
    For,
    If,
    Nil,
    Or,
    Print,
    Return,
    Super,
    This,
    True,
    Var,
    While,
    Eof,
}

/// The fixed keyword table: which reserved word, if any, a given identifier
/// text denotes.
pub open spec fn keyword_kind(s: Seq<char>) -> Option<TokenType> {
    if s == "and"@ {
        Some(TokenType::And)
    } else if s == "class"@ {
        Some(TokenType::Class)
    } else if s == "else"@ {
        Some(TokenType::Else)
    } else if s == "false"@ {
        Some(TokenType::False)
    } else if s == "fun"@ {
        Some(TokenType::Fun)
    } else if s == "for"@ {
        Some(TokenType::For)
    } else if s == "if"@ {
        Some(TokenType::If)
    } else if s == "nil"@ {
        Some(TokenType::Nil)
    } else if s == "or"@ {
        Some(TokenType::Or)
    } else if s == "print"@ {
        Some(TokenType::Print)
    } else if s == "return"@ {
        Some(TokenType::Return)
    } else if s == "super"@ {
        Some(TokenType::Super)
    } else if s == "this"@ {
        Some(TokenType::This)
    } else if s == "true"@ {
        Some(TokenType::True)
    } else if s == "var"@ {
        Some(TokenType::Var)
    } else if s == "while"@ {
        Some(TokenType::While)
    } else {
        None
    }
}

/// Character-for-character equality of two string slices.
fn str_eq(a: &str, b: &str) -> (r: bool)
    ensures
        r == (a@ == b@),
{
    let a_len = a.unicode_len();
    let b_len = b.unicode_len();
    if a_len != b_len {
        return false;
    }
    let mut k: usize = 0;
    while k < a_len
        invariant
            k <= a_len,
            a_len == a@.len(),
            a_len == b@.len(),
            forall|m: int| 0 <= m < k ==> a@[m] == b@[m],
        decreases a_len - k,
    {
        if a.get_char(k) != b.get_char(k) {
            return false;
        }
        k += 1;
    }
    proof {
        assert(a@ =~= b@);
    }
    true
}

impl TokenType {
    /// Looks the given text up in the keyword table.
    pub fn from_keyword(text: &str) -> (r: Option<TokenType>)
        ensures
            r == keyword_kind(text@),
    {
        if str_eq(text, "and") {
            Some(TokenType::And)
        } else if str_eq(text, "class") {
            Some(TokenType::Class)
        } else if str_eq(text, "else") {
            Some(TokenType::Else)
        } else if str_eq(text, "false") {
            Some(TokenType::False)
        } else if str_eq(text, "fun") {
            Some(TokenType::Fun)
        } else if str_eq(text, "for") {
            Some(TokenType::For)
        } else if str_eq(text, "if") {
            Some(TokenType::If)
        } else if str_eq(text, "nil") {
            Some(TokenType::Nil)
        } else if str_eq(text, "or") {
            Some(TokenType::Or)
        } else if str_eq(text, "print") {
            Some(TokenType::Print)
        } else if str_eq(text, "return") {
            Some(TokenType::Return)
        } else if str_eq(text, "super") {
            Some(TokenType::Super)
        } else if str_eq(text, "this") {
            Some(TokenType::This)
        } else if str_eq(text, "true") {
            Some(TokenType::True)
        } else if str_eq(text, "var") {
            Some(TokenType::Var)
        } else if str_eq(text, "while") {
            Some(TokenType::While)
        } else {
            None
        }
    }
}

} // verus!
