//! The scanner: one linear pass over the source text, producing the token
//! sequence and the error sequence that [`crate::scan::scan_from`] describes.

use vstd::prelude::*;
use vstd::string::StrSliceExecFns;

use crate::error::{error_views, lemma_error_views_push, LexicalError, LexicalErrorType};
use crate::scan::{
    comment_end, digit_run_end, ident_run_end, is_digit, is_ident_char, is_space,
    lemma_comment_end, lemma_digit_run_end, lemma_ident_run_end, lemma_newline_count_step,
    lemma_scan_ends_in_eof, lemma_shift, lemma_string_close, newline_count, scan_from,
    string_close, with_error, with_token, ScanResult,
};
use crate::token::{lemma_token_views_push, token_views, Literal, Token};
use crate::token_type::TokenType;

verus! {

/// The scanner state: the source text, the two cursors, and the line counter.
pub struct Lexer {
    /// The entire source code string.
    source: String,
    /// The number of characters in `source`.
    length: usize,
    /// The position of the first character of the lexeme being processed.
    start: usize,
    /// The position of the next character to consume.
    current: usize,
    /// The line number to which the current lexeme belongs.
    line: usize,
}

impl Lexer {
    /// The source as a character sequence.
    pub closed spec fn src(&self) -> Seq<char> {
        self.source@
    }

    /// The position of the next character to consume.
    pub closed spec fn pos(&self) -> int {
        self.current as int
    }

    /// The position where the lexeme being processed begins.
    pub closed spec fn lexeme_start(&self) -> int {
        self.start as int
    }

    /// The current line number.
    pub closed spec fn line_number(&self) -> int {
        self.line as int
    }

    /// Well-formedness: the cursors sit inside the source, the cached length
    /// is the character count, and the line counter has room to grow by one
    /// per character still unconsumed.
    pub closed spec fn wf(&self) -> bool {
        &&& self.start <= self.current <= self.length
        &&& self.length == self.source@.len()
        &&& 1 <= self.line
        &&& self.line + (self.length - self.current) <= usize::MAX
    }

    pub fn new(source: &str) -> (l: Self)
        requires
            source@.len() < usize::MAX,
        ensures
            l.wf(),
            l.src() == source@,
            l.pos() == 0,
            l.lexeme_start() == 0,
            l.line_number() == 1,
    {
        let length = source.unicode_len();
        Self { source: source.to_owned(), length, start: 0, current: 0, line: 1 }
    }

    /// Scans the whole remaining source in one linear pass, returning every
    /// recognized token (closed by the end-of-input token) and every
    /// collected lexical error, exactly as [`scan_from`] describes them.
    pub fn scan_tokens(&mut self) -> (r: (Vec<Token>, Vec<LexicalError>))
        requires
            old(self).wf(),
        ensures
            final(self).wf(),
            final(self).src() == old(self).src(),
            final(self).pos() == old(self).src().len(),
            final(self).line_number() == old(self).line_number() + newline_count(
                old(self).src(),
                old(self).pos(),
                old(self).src().len() as int,
            ),
            token_views(r.0@) == scan_from(
                old(self).src(),
                old(self).pos(),
                old(self).line_number(),
            ).tokens,
            error_views(r.1@) == scan_from(
                old(self).src(),
                old(self).pos(),
                old(self).line_number(),
            ).errors,
    {
        let mut tokens: Vec<Token> = Vec::new();
        let mut errors: Vec<LexicalError> = Vec::new();
        let ghost src = self.src();
        let ghost c0 = self.pos();
        let ghost l0 = self.line_number();
        proof {
            assert(token_views(tokens@) + scan_from(src, c0, l0).tokens =~= scan_from(
                src,
                c0,
                l0,
            ).tokens);
            assert(error_views(errors@) + scan_from(src, c0, l0).errors =~= scan_from(
                src,
                c0,
                l0,
            ).errors);
        }
        while self.current < self.length
            invariant
                self.wf(),
                self.src() == src,
                c0 <= self.pos() <= src.len(),
                scan_from(src, c0, l0).tokens == token_views(tokens@) + scan_from(
                    src,
                    self.pos(),
                    self.line_number(),
                ).tokens,
                scan_from(src, c0, l0).errors == error_views(errors@) + scan_from(
                    src,
                    self.pos(),
                    self.line_number(),
                ).errors,
            decreases src.len() - self.pos(),
        {
            self.start = self.current;
            let ghost i = self.pos();
            let ghost lpre = self.line_number();
            let ch = self.advance();
            match ch {
                '(' => {
                    let t = Token::new(TokenType::LeftParen, self.lexeme_string(), None, self.line);
                    proof {
                        lemma_step_token(src, c0, l0, i, lpre, i + 1, lpre, tokens@, t);
                    }
                    tokens.push(t);
                },
                ')' => {
                    let t = Token::new(
                        TokenType::RightParen,
                        self.lexeme_string(),
                        None,
                        self.line,
                    );
                    proof {
                        lemma_step_token(src, c0, l0, i, lpre, i + 1, lpre, tokens@, t);
                    }
                    tokens.push(t);
                },
                '{' => {
                    let t = Token::new(TokenType::LeftBrace, self.lexeme_string(), None, self.line);
                    proof {
                        lemma_step_token(src, c0, l0, i, lpre, i + 1, lpre, tokens@, t);
                    }
                    tokens.push(t);
                },
                '}' => {
                    let t = Token::new(
                        TokenType::RightBrace,
                        self.lexeme_string(),
                        None,
                        self.line,
                    );
                    proof {
                        lemma_step_token(src, c0, l0, i, lpre, i + 1, lpre, tokens@, t);
                    }
                    tokens.push(t);
                },
                ',' => {
                    let t = Token::new(TokenType::Comma, self.lexeme_string(), None, self.line);
                    proof {
                        lemma_step_token(src, c0, l0, i, lpre, i + 1, lpre, tokens@, t);
                    }
                    tokens.push(t);
                },
                '.' => {
                    let t = Token::new(TokenType::Dot, self.lexeme_string(), None, self.line);
                    proof {
                        lemma_step_token(src, c0, l0, i, lpre, i + 1, lpre, tokens@, t);
                    }
                    tokens.push(t);
                },
                '-' => {
                    let t = Token::new(TokenType::Minus, self.lexeme_string(), None, self.line);
                    proof {
                        lemma_step_token(src, c0, l0, i, lpre, i + 1, lpre, tokens@, t);
                    }
                    tokens.push(t);
                },
                '+' => {
                    let t = Token::new(TokenType::Plus, self.lexeme_string(), None, self.line);
                    proof {
                        lemma_step_token(src, c0, l0, i, lpre, i + 1, lpre, tokens@, t);
                    }
                    tokens.push(t);
                },
                ';' => {
                    let t = Token::new(TokenType::Semicolon, self.lexeme_string(), None, self.line);
                    proof {
                        lemma_step_token(src, c0, l0, i, lpre, i + 1, lpre, tokens@, t);
                    }
                    tokens.push(t);
                },
                '*' => {
                    let t = Token::new(TokenType::Star, self.lexeme_string(), None, self.line);
                    proof {
                        lemma_step_token(src, c0, l0, i, lpre, i + 1, lpre, tokens@, t);
                    }
                    tokens.push(t);
                },
                '=' => {
                    if self.advance_if_equal('=') {
                        let t = Token::new(
                            TokenType::EqualEqual,
                            self.lexeme_string(),
                            None,
                            self.line,
                        );
                        proof {
                            lemma_step_token(src, c0, l0, i, lpre, i + 2, lpre, tokens@, t);
                        }
                        tokens.push(t);
                    } else {
                        let t = Token::new(TokenType::Equal, self.lexeme_string(), None, self.line);
                        proof {
                            lemma_step_token(src, c0, l0, i, lpre, i + 1, lpre, tokens@, t);
                        }
                        tokens.push(t);
                    }
                },
                '!' => {
                    if self.advance_if_equal('=') {
                        let t = Token::new(
                            TokenType::BangEqual,
                            self.lexeme_string(),
                            None,
                            self.line,
                        );
                        proof {
                            lemma_step_token(src, c0, l0, i, lpre, i + 2, lpre, tokens@, t);
                        }
                        tokens.push(t);
                    } else {
                        let t = Token::new(TokenType::Bang, self.lexeme_string(), None, self.line);
                        proof {
                            lemma_step_token(src, c0, l0, i, lpre, i + 1, lpre, tokens@, t);
                        }
                        tokens.push(t);
                    }
                },
                '>' => {
                    if self.advance_if_equal('=') {
                        let t = Token::new(
                            TokenType::GreaterEqual,
                            self.lexeme_string(),
                            None,
                            self.line,
                        );
                        proof {
                            lemma_step_token(src, c0, l0, i, lpre, i + 2, lpre, tokens@, t);
                        }
                        tokens.push(t);
                    } else {
                        let t = Token::new(
                            TokenType::Greater,
                            self.lexeme_string(),
                            None,
                            self.line,
                        );
                        proof {
                            lemma_step_token(src, c0, l0, i, lpre, i + 1, lpre, tokens@, t);
                        }
                        tokens.push(t);
                    }
                },
                '<' => {
                    if self.advance_if_equal('=') {
                        let t = Token::new(
                            TokenType::LessEqual,
                            self.lexeme_string(),
                            None,
                            self.line,
                        );
                        proof {
                            lemma_step_token(src, c0, l0, i, lpre, i + 2, lpre, tokens@, t);
                        }
                        tokens.push(t);
                    } else {
                        let t = Token::new(TokenType::Less, self.lexeme_string(), None, self.line);
                        proof {
                            lemma_step_token(src, c0, l0, i, lpre, i + 1, lpre, tokens@, t);
                        }
                        tokens.push(t);
                    }
                },
                '/' => {
                    if self.advance_if_equal('/') {
                        while self.current < self.length && !self.current_char_matches('\n')
                            invariant
                                self.wf(),
                                self.src() == src,
                                0 <= i,
                                i + 2 <= self.pos() <= src.len(),
                                self.lexeme_start() == i,
                                self.line_number() == lpre,
                                comment_end(src, i + 2) == comment_end(src, self.pos()),
                            decreases src.len() - self.pos(),
                        {
                            let ghost p = self.pos();
                            self.current += 1;
                            proof {
                                assert(comment_end(src, p) == comment_end(src, p + 1));
                            }
                        }
                        proof {
                            assert(comment_end(src, self.pos()) == self.pos());
                            lemma_comment_end(src, i + 2);
                            assert(scan_from(src, i, lpre) == scan_from(
                                src,
                                self.pos(),
                                self.line_number(),
                            ));
                        }
                    } else {
                        let t = Token::new(TokenType::Slash, self.lexeme_string(), None, self.line);
                        proof {
                            lemma_step_token(src, c0, l0, i, lpre, i + 1, lpre, tokens@, t);
                        }
                        tokens.push(t);
                    }
                },
                '\n' => {
                    self.line += 1;
                    proof {
                        assert(scan_from(src, i, lpre) == scan_from(src, i + 1, lpre + 1));
                    }
                },
                c if is_space_char(c) => {
                    proof {
                        assert(scan_from(src, i, lpre) == scan_from(src, i + 1, lpre));
                    }
                },
                '"' => {
                    while self.current < self.length && !self.current_char_matches('"')
                        invariant
                            self.wf(),
                            self.src() == src,
                            0 <= i < src.len(),
                            i + 1 <= self.pos() <= src.len(),
                            self.lexeme_start() == i,
                            string_close(src, i + 1) == string_close(src, self.pos()),
                            self.line_number() == lpre + newline_count(src, i + 1, self.pos()),
                        decreases src.len() - self.pos(),
                    {
                        let ghost p = self.pos();
                        let c = self.advance();
                        if c == '\n' {
                            self.line += 1;
                        }
                        proof {
                            assert(string_close(src, p) == string_close(src, p + 1));
                            lemma_newline_count_step(src, i + 1, p);
                        }
                    }
                    proof {
                        assert(string_close(src, self.pos()) == self.pos());
                        lemma_string_close(src, i + 1);
                    }
                    if self.current >= self.length {
                        let e = LexicalError::new(LexicalErrorType::UnterminatedString, self.line);
                        proof {
                            assert(scan_from(src, i, lpre) == with_error(
                                e@,
                                scan_from(src, src.len() as int, self.line_number()),
                            ));
                            lemma_consume_error(
                                scan_from(src, c0, l0),
                                errors@,
                                e,
                                src,
                                i,
                                lpre,
                                src.len() as int,
                                self.line_number(),
                            );
                        }
                        errors.push(e);
                    } else {
                        let ghost close = self.pos();
                        self.advance();
                        let lexeme = self.lexeme_string();
                        let contents = self.source.as_str().substring_char(
                            self.start + 1,
                            self.current - 1,
                        ).to_owned();
                        let t = Token::new(
                            TokenType::String,
                            lexeme,
                            Some(Literal::String(contents)),
                            self.line,
                        );
                        proof {
                            lemma_step_token(
                                src,
                                c0,
                                l0,
                                i,
                                lpre,
                                close + 1,
                                self.line_number(),
                                tokens@,
                                t,
                            );
                        }
                        tokens.push(t);
                    }
                },
                c if is_digit_char(c) => {
                    while self.current < self.length && is_digit_char(
                        self.char_at(self.current),
                    )
                        invariant
                            self.wf(),
                            self.src() == src,
                            0 <= i,
                            i + 1 <= self.pos() <= src.len(),
                            self.lexeme_start() == i,
                            self.line_number() == lpre,
                            digit_run_end(src, i + 1) == digit_run_end(src, self.pos()),
                        decreases src.len() - self.pos(),
                    {
                        let ghost p = self.pos();
                        self.advance();
                        proof {
                            assert(digit_run_end(src, p) == digit_run_end(src, p + 1));
                        }
                    }
                    proof {
                        assert(digit_run_end(src, self.pos()) == self.pos());
                        lemma_digit_run_end(src, i + 1);
                    }
                    let ghost whole = self.pos();
                    if self.current_char_matches('.') && self.current + 1 < self.length
                        && is_digit_char(self.char_at(self.current + 1)) {
                        self.advance();
                        while self.current < self.length && is_digit_char(
                            self.char_at(self.current),
                        )
                            invariant
                                self.wf(),
                                self.src() == src,
                                0 <= whole,
                                whole + 1 <= self.pos() <= src.len(),
                                self.lexeme_start() == i,
                                self.line_number() == lpre,
                                digit_run_end(src, whole + 1) == digit_run_end(src, self.pos()),
                            decreases src.len() - self.pos(),
                        {
                            let ghost p = self.pos();
                            self.advance();
                            proof {
                                assert(digit_run_end(src, p) == digit_run_end(src, p + 1));
                            }
                        }
                        proof {
                            assert(digit_run_end(src, self.pos()) == self.pos());
                            lemma_digit_run_end(src, whole + 1);
                        }
                    }
                    let text = self.lexeme_string();
                    let t = Token::new(
                        TokenType::Number,
                        text,
                        Some(Literal::Number(self.lexeme_string())),
                        self.line,
                    );
                    proof {
                        lemma_step_token(src, c0, l0, i, lpre, self.pos(), lpre, tokens@, t);
                    }
                    tokens.push(t);
                },
                c if is_ident_char_exec(c) => {
                    while self.current < self.length && is_ident_char_exec(
                        self.char_at(self.current),
                    )
                        invariant
                            self.wf(),
                            self.src() == src,
                            0 <= i,
                            i + 1 <= self.pos() <= src.len(),
                            self.lexeme_start() == i,
                            self.line_number() == lpre,
                            ident_run_end(src, i + 1) == ident_run_end(src, self.pos()),
                        decreases src.len() - self.pos(),
                    {
                        let ghost p = self.pos();
                        self.advance();
                        proof {
                            assert(ident_run_end(src, p) == ident_run_end(src, p + 1));
                        }
                    }
                    proof {
                        assert(ident_run_end(src, self.pos()) == self.pos());
                        lemma_ident_run_end(src, i + 1);
                    }
                    let text = self.lexeme_string();
                    let typ = match TokenType::from_keyword(text.as_str()) {
                        Some(t) => t,
                        None => TokenType::Identifier,
                    };
                    let t = Token::new(typ, text, None, self.line);
                    proof {
                        lemma_step_token(src, c0, l0, i, lpre, self.pos(), lpre, tokens@, t);
                    }
                    tokens.push(t);
                },
                _ => {
                    let e = LexicalError::new(
                        LexicalErrorType::UnexpectedCharacter(ch),
                        self.line,
                    );
                    proof {
                        assert(scan_from(src, i, lpre) == with_error(
                            e@,
                            scan_from(src, i + 1, lpre),
                        ));
                        lemma_consume_error(
                            scan_from(src, c0, l0),
                            errors@,
                            e,
                            src,
                            i,
                            lpre,
                            i + 1,
                            lpre,
                        );
                    }
                    errors.push(e);
                },
            }
        }
        let t = Token::new(TokenType::Eof, String::new(), None, self.line);
        proof {
            lemma_scan_ends_in_eof(src, c0, l0);
            lemma_token_views_push(tokens@, t);
            assert(token_views(tokens@).push(t@) =~= token_views(tokens@) + seq![t@]);
            assert(scan_from(src, self.pos(), self.line_number()).tokens =~= seq![t@]);
            assert(error_views(errors@) + scan_from(
                src,
                self.pos(),
                self.line_number(),
            ).errors =~= error_views(errors@));
        }
        tokens.push(t);
        (tokens, errors)
    }

    /// The character at position `idx`, without consuming anything.
    fn char_at(&self, idx: usize) -> (c: char)
        requires
            self.wf(),
            idx < self.src().len(),
        ensures
            c == self.src()[idx as int],
    {
        self.source.as_str().get_char(idx)
    }

    /// Consumes and returns the next character.
    pub fn advance(&mut self) -> (c: char)
        requires
            old(self).wf(),
            old(self).pos() < old(self).src().len(),
        ensures
            final(self).wf(),
            c == old(self).src()[old(self).pos()],
            final(self).src() == old(self).src(),
            final(self).pos() == old(self).pos() + 1,
            final(self).lexeme_start() == old(self).lexeme_start(),
            final(self).line_number() == old(self).line_number(),
    {
        let c = self.source.as_str().get_char(self.current);
        self.current += 1;
        c
    }

    /// Consumes the next character exactly when it equals `expected`.
    pub fn advance_if_equal(&mut self, expected: char) -> (r: bool)
        requires
            old(self).wf(),
        ensures
            final(self).wf(),
            r == (old(self).pos() < old(self).src().len() && old(self).src()[old(self).pos()]
                == expected),
            final(self).src() == old(self).src(),
            final(self).pos() == old(self).pos() + (if r {
                1int
            } else {
                0int
            }),
            final(self).lexeme_start() == old(self).lexeme_start(),
            final(self).line_number() == old(self).line_number(),
    {
        if self.current >= self.length {
            return false;
        }
        if self.source.as_str().get_char(self.current) == expected {
            self.current += 1;
            true
        } else {
            false
        }
    }

    /// Whether the next character to consume equals `expected`, without
    /// consuming it.
    pub fn current_char_matches(&mut self, expected: char) -> (r: bool)
        requires
            old(self).wf(),
        ensures
            final(self).wf(),
            r == (old(self).pos() < old(self).src().len() && old(self).src()[old(self).pos()]
                == expected),
            final(self).src() == old(self).src(),
            final(self).pos() == old(self).pos(),
            final(self).lexeme_start() == old(self).lexeme_start(),
            final(self).line_number() == old(self).line_number(),
    {
        if self.current >= self.length {
            false
        } else {
            self.source.as_str().get_char(self.current) == expected
        }
    }

    /// The exact source text of the lexeme being processed.
    fn lexeme_string(&self) -> (s: String)
        requires
            self.wf(),
        ensures
            s@ == self.src().subrange(self.lexeme_start(), self.pos()),
    {
        self.source.as_str().substring_char(self.start, self.current).to_owned()
    }
}

/// One dispatch step that emits a token: the lexeme's worth of output moves
/// from the head of the remaining model output onto the end of the finished
/// output, and the rest of the scan continues at `next` on line `nline`.
proof fn lemma_step_token(
    src: Seq<char>,
    c0: int,
    l0: int,
    i: int,
    line: int,
    next: int,
    nline: int,
    done: Seq<Token>,
    t: Token,
)
    requires
        scan_from(src, i, line) == with_token(t@, scan_from(src, next, nline)),
        scan_from(src, c0, l0).tokens == token_views(done) + scan_from(src, i, line).tokens,
    ensures
        scan_from(src, c0, l0).tokens == token_views(done.push(t)) + scan_from(
            src,
            next,
            nline,
        ).tokens,
{
    lemma_token_views_push(done, t);
    lemma_shift(
        scan_from(src, c0, l0).tokens,
        token_views(done),
        t@,
        scan_from(src, next, nline).tokens,
    );
}

/// One dispatch step that collects an error, the counterpart of
/// [`lemma_step_token`] on the error sequence.
proof fn lemma_consume_error(
    total: ScanResult,
    done: Seq<LexicalError>,
    e: LexicalError,
    src: Seq<char>,
    i: int,
    line: int,
    next: int,
    nline: int,
)
    requires
        scan_from(src, i, line) == with_error(e@, scan_from(src, next, nline)),
        total.errors == error_views(done) + scan_from(src, i, line).errors,
    ensures
        total.errors == error_views(done.push(e)) + scan_from(src, next, nline).errors,
{
    lemma_error_views_push(done, e);
    lemma_shift(total.errors, error_views(done), e@, scan_from(src, next, nline).errors);
}

/// Horizontal whitespace, skipped without effect.
fn is_space_char(c: char) -> (r: bool)
    ensures
        r == is_space(c),
{
    c == ' ' || c == '\t' || c == '\r' || c == '\u{c}'
}

/// An ASCII decimal digit.
fn is_digit_char(c: char) -> (r: bool)
    ensures
        r == is_digit(c),
{
    let u: u32 = c as u32;
    48 <= u && u <= 57
}

/// A letter, digit or underscore: a character that may continue an
/// identifier.
fn is_ident_char_exec(c: char) -> (r: bool)
    ensures
        r == is_ident_char(c),
{
    let u: u32 = c as u32;
    (65 <= u && u <= 90) || (97 <= u && u <= 122) || (48 <= u && u <= 57) || c == '_'
}

} // verus!
