//! The mathematical description of one complete scan: a recursive function
//! from the source character sequence to the token and error sequences, plus
//! the laws proved about it.

use vstd::prelude::*;

use crate::error::{LexicalErrorType, SpecLexicalError};
use crate::token::{SpecLiteral, SpecToken};
use crate::token_type::{keyword_kind, TokenType};

verus! {

// ---------------------------------------------------------------------------
// Character classes.  Classification is deliberately ASCII-only.
// ---------------------------------------------------------------------------
/// An ASCII decimal digit.
pub open spec fn is_digit(c: char) -> bool {
    48 <= c as u32 <= 57
}

/// An ASCII letter.
pub open spec fn is_alpha(c: char) -> bool {
    (65 <= c as u32 <= 90) || (97 <= c as u32 <= 122)
}

/// A character that may continue an identifier: a letter, a digit or an
/// underscore.
pub open spec fn is_ident_char(c: char) -> bool {
    is_alpha(c) || is_digit(c) || c == '_'
}

/// Horizontal whitespace: skipped without effect.  The newline is not here;
/// it advances the line counter and is handled on its own.
pub open spec fn is_space(c: char) -> bool {
    c == ' ' || c == '\t' || c == '\r' || c == '\u{c}'
}

/// The kind of a fixed single-character punctuation token, if `c` is one.
pub open spec fn single_kind(c: char) -> Option<TokenType> {
    if c == '(' {
        Some(TokenType::LeftParen)
    } else if c == ')' {
        Some(TokenType::RightParen)
    } else if c == '{' {
        Some(TokenType::LeftBrace)
    } else if c == '}' {
        Some(TokenType::RightBrace)
    } else if c == ',' {
        Some(TokenType::Comma)
    } else if c == '.' {
        Some(TokenType::Dot)
    } else if c == '-' {
        Some(TokenType::Minus)
    } else if c == '+' {
        Some(TokenType::Plus)
    } else if c == ';' {
        Some(TokenType::Semicolon)
    } else if c == '*' {
        Some(TokenType::Star)
    } else {
        None
    }
}

/// Whether `c` may begin a one- or two-character operator (`!` `=` `>` `<`).
pub open spec fn is_operator_start(c: char) -> bool {
    c == '!' || c == '=' || c == '>' || c == '<'
}

/// The kind emitted when `c` stands alone.
pub open spec fn operator_single_kind(c: char) -> TokenType {
    if c == '!' {
        TokenType::Bang
    } else if c == '=' {
        TokenType::Equal
    } else if c == '>' {
        TokenType::Greater
    } else {
        TokenType::Less
    }
}

/// The kind emitted when `c` is followed by `=`.
pub open spec fn operator_equal_kind(c: char) -> TokenType {
    if c == '!' {
        TokenType::BangEqual
    } else if c == '=' {
        TokenType::EqualEqual
    } else if c == '>' {
        TokenType::GreaterEqual
    } else {
        TokenType::LessEqual
    }
}

// ---------------------------------------------------------------------------
// Maximal runs and delimited stretches of the source.
// ---------------------------------------------------------------------------
/// The first position at or after `i` that does not hold an ASCII digit
/// (the length of the source if digits reach its end).
pub open spec fn digit_run_end(src: Seq<char>, i: int) -> int
    decreases src.len() - i,
{
    if 0 <= i < src.len() && is_digit(src[i]) {
        digit_run_end(src, i + 1)
    } else {
        i
    }
}

/// The first position at or after `i` that cannot continue an identifier.
pub open spec fn ident_run_end(src: Seq<char>, i: int) -> int
    decreases src.len() - i,
{
    if 0 <= i < src.len() && is_ident_char(src[i]) {
        ident_run_end(src, i + 1)
    } else {
        i
    }
}

/// The first position at or after `i` holding a newline, or the length of the
/// source: where a line comment starting before `i` stops consuming.
pub open spec fn comment_end(src: Seq<char>, i: int) -> int
    decreases src.len() - i,
{
    if 0 <= i < src.len() && src[i] != '\n' {
        comment_end(src, i + 1)
    } else {
        i
    }
}

/// The first position at or after `i` holding a closing double quote, or the
/// length of the source if the string literal never closes.
pub open spec fn string_close(src: Seq<char>, i: int) -> int
    decreases src.len() - i,
{
    if 0 <= i < src.len() && src[i] != '"' {
        string_close(src, i + 1)
    } else {
        i
    }
}

/// How many newline characters `src` holds in the half-open range `[a, b)`.
pub open spec fn newline_count(src: Seq<char>, a: int, b: int) -> int
    decreases b - a,
{
    if a >= b {
        0
    } else {
        (if 0 <= a < src.len() && src[a] == '\n' {
            1int
        } else {
            0int
        }) + newline_count(src, a + 1, b)
    }
}

// ---------------------------------------------------------------------------
// The scan itself.
// ---------------------------------------------------------------------------
/// What one complete scan returns: the token sequence and the error sequence.
#[verifier::ext_equal]
pub ghost struct ScanResult {
    pub tokens: Seq<SpecToken>,
    pub errors: Seq<SpecLexicalError>,
}

/// `r` with the token `t` put in front of its token sequence.
pub open spec fn with_token(t: SpecToken, r: ScanResult) -> ScanResult {
    ScanResult { tokens: seq![t] + r.tokens, errors: r.errors }
}

/// `r` with the error `e` put in front of its error sequence.
pub open spec fn with_error(e: SpecLexicalError, r: ScanResult) -> ScanResult {
    ScanResult { tokens: r.tokens, errors: seq![e] + r.errors }
}

/// A token whose lexeme is the source slice `[start, end)`.
pub open spec fn slice_token(
    src: Seq<char>,
    typ: TokenType,
    start: int,
    end: int,
    literal: Option<SpecLiteral>,
    line: int,
) -> SpecToken {
    SpecToken { typ, lexeme: src.subrange(start, end), literal, line }
}

/// The end-of-input token: empty lexeme, no payload.
pub open spec fn eof_token(line: int) -> SpecToken {
    SpecToken { typ: TokenType::Eof, lexeme: Seq::empty(), literal: None, line }
}

/// The position scanning continues from after a lexeme that began at `i` and
/// reached `n`.  Every lexeme consumes at least one character and never more
/// than the rest of the source; the bounds here only make that shape plain to
/// the termination checker, and the run lemmas below show they never actually
/// clip.
pub open spec fn advanced(src: Seq<char>, i: int, n: int) -> int {
    if n <= i {
        i + 1
    } else if n > src.len() {
        src.len() as int
    } else {
        n
    }
}

/// The whole scan of `src` from position `i` on line `line`: the token
/// sequence it still produces (always closed by the end-of-input token) and
/// the error sequence it still collects.
///
/// Each step mirrors the scanner's per-character dispatch, in priority order:
/// fixed punctuation; one- or two-character operators; comment or slash;
/// newline; other whitespace; string literal; number; identifier or keyword;
/// and everything else, which is collected as an error.
pub open spec fn scan_from(src: Seq<char>, i: int, line: int) -> ScanResult
    decreases src.len() - i,
{
    if !(0 <= i < src.len()) {
        ScanResult { tokens: seq![eof_token(line)], errors: Seq::empty() }
    } else {
        let c = src[i];
        match single_kind(c) {
            Some(kind) => with_token(
                slice_token(src, kind, i, i + 1, None, line),
                scan_from(src, i + 1, line),
            ),
            None => {
                if is_operator_start(c) {
                    if i + 1 < src.len() && src[i + 1] == '=' {
                        with_token(
                            slice_token(src, operator_equal_kind(c), i, i + 2, None, line),
                            scan_from(src, i + 2, line),
                        )
                    } else {
                        with_token(
                            slice_token(src, operator_single_kind(c), i, i + 1, None, line),
                            scan_from(src, i + 1, line),
                        )
                    }
                } else if c == '/' {
                    if i + 1 < src.len() && src[i + 1] == '/' {
                        scan_from(src, advanced(src, i, comment_end(src, i + 2)), line)
                    } else {
                        with_token(
                            slice_token(src, TokenType::Slash, i, i + 1, None, line),
                            scan_from(src, i + 1, line),
                        )
                    }
                } else if c == '\n' {
                    scan_from(src, i + 1, line + 1)
                } else if is_space(c) {
                    scan_from(src, i + 1, line)
                } else if c == '"' {
                    let close = string_close(src, i + 1);
                    let nline = line + newline_count(src, i + 1, close);
                    if close >= src.len() {
                        with_error(
                            SpecLexicalError { typ: LexicalErrorType::UnterminatedString, line: nline },
                            scan_from(src, src.len() as int, nline),
                        )
                    } else {
                        with_token(
                            slice_token(
                                src,
                                TokenType::String,
                                i,
                                close + 1,
                                Some(SpecLiteral::Str(src.subrange(i + 1, close))),
                                nline,
                            ),
                            scan_from(src, advanced(src, i, close + 1), nline),
                        )
                    }
                } else if is_digit(c) {
                    let whole = digit_run_end(src, i + 1);
                    let end = if whole < src.len() && src[whole] == '.' && whole + 1 < src.len()
                        && is_digit(src[whole + 1]) {
                        digit_run_end(src, whole + 1)
                    } else {
                        whole
                    };
                    with_token(
                        slice_token(
                            src,
                            TokenType::Number,
                            i,
                            end,
                            Some(SpecLiteral::Num(src.subrange(i, end))),
                            line,
                        ),
                        scan_from(src, advanced(src, i, end), line),
                    )
                } else if is_ident_char(c) {
                    let end = ident_run_end(src, i + 1);
                    let kind = match keyword_kind(src.subrange(i, end)) {
                        Some(k) => k,
                        None => TokenType::Identifier,
                    };
                    with_token(
                        slice_token(src, kind, i, end, None, line),
                        scan_from(src, advanced(src, i, end), line),
                    )
                } else {
                    with_error(
                        SpecLexicalError { typ: LexicalErrorType::UnexpectedCharacter(c), line },
                        scan_from(src, i + 1, line),
                    )
                }
            },
        }
    }
}

// ---------------------------------------------------------------------------
// Bounds of the run and stretch functions.
// ---------------------------------------------------------------------------
/// A maximal digit run: where it ends, and that it is made of digits.
pub proof fn lemma_digit_run_end(src: Seq<char>, i: int)
    requires
        0 <= i <= src.len(),
    ensures
        i <= digit_run_end(src, i) <= src.len(),
        forall|k: int| i <= k < digit_run_end(src, i) ==> is_digit(src[k]),
        digit_run_end(src, i) < src.len() ==> !is_digit(src[digit_run_end(src, i)]),
    decreases src.len() - i,
{
    if i < src.len() && is_digit(src[i]) {
        lemma_digit_run_end(src, i + 1);
    }
}

/// A maximal identifier run: where it ends, and what it is made of.
pub proof fn lemma_ident_run_end(src: Seq<char>, i: int)
    requires
        0 <= i <= src.len(),
    ensures
        i <= ident_run_end(src, i) <= src.len(),
        forall|k: int| i <= k < ident_run_end(src, i) ==> is_ident_char(src[k]),
        ident_run_end(src, i) < src.len() ==> !is_ident_char(src[ident_run_end(src, i)]),
    decreases src.len() - i,
{
    if i < src.len() && is_ident_char(src[i]) {
        lemma_ident_run_end(src, i + 1);
    }
}

/// A line comment runs to the next newline or to the end of the input.
pub proof fn lemma_comment_end(src: Seq<char>, i: int)
    requires
        0 <= i <= src.len(),
    ensures
        i <= comment_end(src, i) <= src.len(),
        forall|k: int| i <= k < comment_end(src, i) ==> src[k] != '\n',
        comment_end(src, i) < src.len() ==> src[comment_end(src, i)] == '\n',
    decreases src.len() - i,
{
    if i < src.len() && src[i] != '\n' {
        lemma_comment_end(src, i + 1);
    }
}

/// A string literal runs to the next double quote or to the end of the input.
pub proof fn lemma_string_close(src: Seq<char>, i: int)
    requires
        0 <= i <= src.len(),
    ensures
        i <= string_close(src, i) <= src.len(),
        forall|k: int| i <= k < string_close(src, i) ==> src[k] != '"',
        string_close(src, i) < src.len() ==> src[string_close(src, i)] == '"',
    decreases src.len() - i,
{
    if i < src.len() && src[i] != '"' {
        lemma_string_close(src, i + 1);
    }
}

// ---------------------------------------------------------------------------
// Newline counting.
// ---------------------------------------------------------------------------
/// Newline counts are never negative.
pub proof fn lemma_newline_count_nonneg(src: Seq<char>, a: int, b: int)
    ensures
        0 <= newline_count(src, a, b),
    decreases b - a,
{
    if a < b {
        lemma_newline_count_nonneg(src, a + 1, b);
    }
}

/// Newline counts add over adjacent ranges.
pub proof fn lemma_newline_count_split(src: Seq<char>, a: int, b: int, c: int)
    requires
        a <= b <= c,
    ensures
        newline_count(src, a, c) == newline_count(src, a, b) + newline_count(src, b, c),
    decreases b - a,
{
    if a < b {
        lemma_newline_count_split(src, a + 1, b, c);
    }
}

/// Extending a range by one character adds one newline exactly when that
/// character is one.
pub proof fn lemma_newline_count_step(src: Seq<char>, a: int, b: int)
    requires
        a <= b,
    ensures
        newline_count(src, a, b + 1) == newline_count(src, a, b) + (if 0 <= b < src.len()
            && src[b] == '\n' {
            1int
        } else {
            0int
        }),
{
    lemma_newline_count_split(src, a, b, b + 1);
    assert(newline_count(src, b + 1, b + 1) == 0);
}

/// A range without newline characters counts none.
pub proof fn lemma_newline_count_zero(src: Seq<char>, a: int, b: int)
    requires
        a < b ==> 0 <= a && b <= src.len(),
        forall|k: int| a <= k < b ==> (#[trigger] src[k]) != '\n',
    ensures
        newline_count(src, a, b) == 0,
    decreases b - a,
{
    if a < b {
        lemma_newline_count_zero(src, a + 1, b);
    }
}

// ---------------------------------------------------------------------------
// The laws of the scan.
// ---------------------------------------------------------------------------
/// Putting a proper token in front of output that already obeys the
/// end-of-input shape keeps it obeying that shape.
proof fn lemma_front_token(t: SpecToken, rest: Seq<SpecToken>, all: Seq<SpecToken>, eline: int)
    requires
        all == seq![t] + rest,
        t.typ != TokenType::Eof,
        t.lexeme.len() > 0,
        rest.len() >= 1,
        rest[rest.len() - 1] == eof_token(eline),
        forall|k: int|
            0 <= k < rest.len() - 1 ==> (#[trigger] rest[k]).typ != TokenType::Eof
                && rest[k].lexeme.len() > 0,
    ensures
        all.len() >= 2,
        all[all.len() - 1] == eof_token(eline),
        forall|k: int|
            0 <= k < all.len() - 1 ==> (#[trigger] all[k]).typ != TokenType::Eof
                && all[k].lexeme.len() > 0,
{
    assert forall|k: int|
        0 <= k < all.len() - 1 implies (#[trigger] all[k]).typ != TokenType::Eof
        && all[k].lexeme.len() > 0 by {
        if k == 0 {
            assert(all[0] == t);
        } else {
            assert(all[k] == rest[k - 1]);
        }
    }
}

/// The token sequence is never empty; its last element, and only that
/// element, is the end-of-input token; the end-of-input token's line is the
/// starting line plus every newline the scan consumed; and every other token
/// has a non-empty lexeme.
#[verifier::rlimit(60)]
pub proof fn lemma_scan_ends_in_eof(src: Seq<char>, i: int, line: int)
    requires
        0 <= i <= src.len(),
    ensures
        scan_from(src, i, line).tokens.len() >= 1,
        scan_from(src, i, line).tokens.last() == eof_token(
            line + newline_count(src, i, src.len() as int),
        ),
        forall|k: int|
            0 <= k < scan_from(src, i, line).tokens.len() - 1 ==> (#[trigger] scan_from(
                src,
                i,
                line,
            ).tokens[k]).typ != TokenType::Eof && scan_from(src, i, line).tokens[k].lexeme.len()
                > 0,
    decreases src.len() - i,
{
    let res = scan_from(src, i, line);
    let n = src.len() as int;
    if i >= n {
        assert(newline_count(src, i, n) == 0);
        assert(res.tokens.last() == eof_token(line));
    } else {
        let c = src[i];
        if single_kind(c) is Some {
            lemma_scan_ends_in_eof(src, i + 1, line);
            lemma_newline_count_split(src, i, i + 1, n);
            assert(newline_count(src, i + 1, i + 1) == 0);
            assert(newline_count(src, i, i + 1) == 0);
            lemma_front_token(
                res.tokens[0],
                scan_from(src, i + 1, line).tokens,
                res.tokens,
                line + newline_count(src, i, n),
            );
        } else if is_operator_start(c) {
            if i + 1 < n && src[i + 1] == '=' {
                lemma_scan_ends_in_eof(src, i + 2, line);
                lemma_newline_count_split(src, i, i + 2, n);
                assert(newline_count(src, i + 2, i + 2) == 0);
                assert(newline_count(src, i + 1, i + 2) == 0);
                assert(newline_count(src, i, i + 2) == 0);
                lemma_front_token(
                    res.tokens[0],
                    scan_from(src, i + 2, line).tokens,
                    res.tokens,
                    line + newline_count(src, i, n),
                );
            } else {
                lemma_scan_ends_in_eof(src, i + 1, line);
                lemma_newline_count_split(src, i, i + 1, n);
                assert(newline_count(src, i + 1, i + 1) == 0);
                assert(newline_count(src, i, i + 1) == 0);
                lemma_front_token(
                    res.tokens[0],
                    scan_from(src, i + 1, line).tokens,
                    res.tokens,
                    line + newline_count(src, i, n),
                );
            }
        } else if c == '/' {
            if i + 1 < n && src[i + 1] == '/' {
                let ce = comment_end(src, i + 2);
                lemma_comment_end(src, i + 2);
                lemma_scan_ends_in_eof(src, ce, line);
                lemma_newline_count_split(src, i, ce, n);
                assert forall|k: int| i <= k < ce implies (#[trigger] src[k]) != '\n' by {
                    if k >= i + 2 {
                        assert(src[k] != '\n');
                    }
                }
                lemma_newline_count_zero(src, i, ce);
            } else {
                lemma_scan_ends_in_eof(src, i + 1, line);
                lemma_newline_count_split(src, i, i + 1, n);
                assert(newline_count(src, i + 1, i + 1) == 0);
                assert(newline_count(src, i, i + 1) == 0);
                lemma_front_token(
                    res.tokens[0],
                    scan_from(src, i + 1, line).tokens,
                    res.tokens,
                    line + newline_count(src, i, n),
                );
            }
        } else if c == '\n' {
            lemma_scan_ends_in_eof(src, i + 1, line + 1);
            lemma_newline_count_split(src, i, i + 1, n);
            assert(newline_count(src, i + 1, i + 1) == 0);
            assert(newline_count(src, i, i + 1) == 1);
        } else if is_space(c) {
            lemma_scan_ends_in_eof(src, i + 1, line);
            lemma_newline_count_split(src, i, i + 1, n);
            assert(newline_count(src, i + 1, i + 1) == 0);
            assert(newline_count(src, i, i + 1) == 0);
        } else if c == '"' {
            let close = string_close(src, i + 1);
            let nline = line + newline_count(src, i + 1, close);
            lemma_string_close(src, i + 1);
            if close >= n {
                lemma_scan_ends_in_eof(src, n, nline);
                assert(newline_count(src, n, n) == 0);
                assert(newline_count(src, i, n) == newline_count(src, i + 1, n));
            } else {
                lemma_scan_ends_in_eof(src, close + 1, nline);
                lemma_newline_count_step(src, i + 1, close);
                assert(newline_count(src, i, close + 1) == newline_count(src, i + 1, close + 1));
                lemma_newline_count_split(src, i, close + 1, n);
                lemma_front_token(
                    res.tokens[0],
                    scan_from(src, close + 1, nline).tokens,
                    res.tokens,
                    line + newline_count(src, i, n),
                );
            }
        } else if is_digit(c) {
            let whole = digit_run_end(src, i + 1);
            lemma_digit_run_end(src, i + 1);
            let end = if whole < n && src[whole] == '.' && whole + 1 < n && is_digit(
                src[whole + 1],
            ) {
                digit_run_end(src, whole + 1)
            } else {
                whole
            };
            if whole < n && src[whole] == '.' && whole + 1 < n && is_digit(src[whole + 1]) {
                lemma_digit_run_end(src, whole + 1);
            }
            lemma_scan_ends_in_eof(src, end, line);
            lemma_newline_count_split(src, i, end, n);
            assert forall|k: int| i <= k < end implies (#[trigger] src[k]) != '\n' by {
                if k == i {
                } else if k < whole {
                    assert(is_digit(src[k]));
                } else if k == whole {
                } else {
                    assert(is_digit(src[k]));
                }
            }
            lemma_newline_count_zero(src, i, end);
            lemma_front_token(
                res.tokens[0],
                scan_from(src, end, line).tokens,
                res.tokens,
                line + newline_count(src, i, n),
            );
        } else if is_ident_char(c) {
            let end = ident_run_end(src, i + 1);
            lemma_ident_run_end(src, i + 1);
            lemma_scan_ends_in_eof(src, end, line);
            lemma_newline_count_split(src, i, end, n);
            assert forall|k: int| i <= k < end implies (#[trigger] src[k]) != '\n' by {
                if k > i {
                    assert(is_ident_char(src[k]));
                }
            }
            lemma_newline_count_zero(src, i, end);
            lemma_front_token(
                res.tokens[0],
                scan_from(src, end, line).tokens,
                res.tokens,
                line + newline_count(src, i, n),
            );
        } else {
            lemma_scan_ends_in_eof(src, i + 1, line);
            lemma_newline_count_split(src, i, i + 1, n);
            assert(newline_count(src, i + 1, i + 1) == 0);
            assert(newline_count(src, i, i + 1) == 0);
        }
    }
}

/// Narrowing a bound on every token's line keeps it a bound.
proof fn lemma_lines_within(all: Seq<SpecToken>, lo: int, hi: int, rlo: int, rhi: int)
    requires
        lo <= rlo,
        rhi <= hi,
        forall|k: int| 0 <= k < all.len() ==> rlo <= (#[trigger] all[k]).line <= rhi,
    ensures
        forall|k: int| 0 <= k < all.len() ==> lo <= (#[trigger] all[k]).line <= hi,
{
}

/// Putting a token whose line sits inside a bound in front of a sequence of
/// tokens whose lines sit inside it keeps every line inside it.
proof fn lemma_lines_cons(all: Seq<SpecToken>, t: SpecToken, rest: Seq<SpecToken>, lo: int, hi: int)
    requires
        all == seq![t] + rest,
        lo <= t.line <= hi,
        forall|k: int| 0 <= k < rest.len() ==> lo <= (#[trigger] rest[k]).line <= hi,
    ensures
        forall|k: int| 0 <= k < all.len() ==> lo <= (#[trigger] all[k]).line <= hi,
{
    assert forall|k: int| 0 <= k < all.len() implies lo <= (#[trigger] all[k]).line <= hi by {
        if k == 0 {
            assert(all[0] == t);
        } else {
            assert(all[k] == rest[k - 1]);
        }
    }
}

/// Line accounting, bounded: the line counter starts at `line` and only ever
/// climbs by newlines actually consumed, so every token's line lies between
/// the starting line and the starting line plus every newline of the
/// remaining source.  `lemma_scan_ends_in_eof` pins the end-of-input token's
/// line to the upper bound exactly.
#[verifier::rlimit(60)]
pub proof fn lemma_token_lines_bounded(src: Seq<char>, i: int, line: int)
    requires
        0 <= i <= src.len(),
    ensures
        forall|k: int|
            0 <= k < scan_from(src, i, line).tokens.len() ==> line <= (#[trigger] scan_from(
                src,
                i,
                line,
            ).tokens[k]).line <= line + newline_count(src, i, src.len() as int),
    decreases src.len() - i,
{
    let res = scan_from(src, i, line);
    let n = src.len() as int;
    lemma_newline_count_nonneg(src, i, n);
    if i >= n {
        assert(newline_count(src, i, n) == 0);
        assert(res.tokens[0] == eof_token(line));
    } else {
        let c = src[i];
        if single_kind(c) is Some || (is_operator_start(c) && !(i + 1 < n && src[i + 1] == '='))
            || (c == '/' && !(i + 1 < n && src[i + 1] == '/')) {
            lemma_token_lines_bounded(src, i + 1, line);
            lemma_newline_count_split(src, i, i + 1, n);
            assert(newline_count(src, i + 1, i + 1) == 0);
            assert(newline_count(src, i, i + 1) == 0);
            lemma_lines_cons(
                res.tokens,
                res.tokens[0],
                scan_from(src, i + 1, line).tokens,
                line,
                line + newline_count(src, i, n),
            );
        } else if is_operator_start(c) {
            lemma_token_lines_bounded(src, i + 2, line);
            lemma_newline_count_split(src, i, i + 2, n);
            assert(newline_count(src, i + 2, i + 2) == 0);
            assert(newline_count(src, i + 1, i + 2) == 0);
            assert(newline_count(src, i, i + 2) == 0);
            lemma_lines_cons(
                res.tokens,
                res.tokens[0],
                scan_from(src, i + 2, line).tokens,
                line,
                line + newline_count(src, i, n),
            );
        } else if c == '/' {
            let ce = comment_end(src, i + 2);
            lemma_comment_end(src, i + 2);
            lemma_token_lines_bounded(src, ce, line);
            lemma_newline_count_split(src, i, ce, n);
            assert forall|k: int| i <= k < ce implies (#[trigger] src[k]) != '\n' by {
                if k >= i + 2 {
                    assert(src[k] != '\n');
                }
            }
            lemma_newline_count_zero(src, i, ce);
            lemma_lines_within(
                res.tokens,
                line,
                line + newline_count(src, i, n),
                line,
                line + newline_count(src, ce, n),
            );
        } else if c == '\n' {
            lemma_token_lines_bounded(src, i + 1, line + 1);
            lemma_newline_count_split(src, i, i + 1, n);
            assert(newline_count(src, i + 1, i + 1) == 0);
            assert(newline_count(src, i, i + 1) == 1);
            lemma_lines_within(
                res.tokens,
                line,
                line + newline_count(src, i, n),
                line + 1,
                line + 1 + newline_count(src, i + 1, n),
            );
        } else if is_space(c) {
            lemma_token_lines_bounded(src, i + 1, line);
            lemma_newline_count_split(src, i, i + 1, n);
            assert(newline_count(src, i + 1, i + 1) == 0);
            assert(newline_count(src, i, i + 1) == 0);
            lemma_lines_within(
                res.tokens,
                line,
                line + newline_count(src, i, n),
                line,
                line + newline_count(src, i + 1, n),
            );
        } else if c == '"' {
            let close = string_close(src, i + 1);
            let nline = line + newline_count(src, i + 1, close);
            lemma_string_close(src, i + 1);
            lemma_newline_count_nonneg(src, i + 1, close);
            if close >= n {
                lemma_token_lines_bounded(src, n, nline);
                assert(newline_count(src, n, n) == 0);
                assert(newline_count(src, i, n) == newline_count(src, i + 1, n));
                lemma_lines_within(
                    res.tokens,
                    line,
                    line + newline_count(src, i, n),
                    nline,
                    nline,
                );
            } else {
                lemma_token_lines_bounded(src, close + 1, nline);
                lemma_newline_count_step(src, i + 1, close);
                assert(newline_count(src, i, close + 1) == newline_count(src, i + 1, close + 1));
                lemma_newline_count_split(src, i, close + 1, n);
                lemma_newline_count_nonneg(src, close + 1, n);
                lemma_lines_cons(
                    res.tokens,
                    res.tokens[0],
                    scan_from(src, close + 1, nline).tokens,
                    line,
                    line + newline_count(src, i, n),
                );
            }
        } else if is_digit(c) {
            let whole = digit_run_end(src, i + 1);
            lemma_digit_run_end(src, i + 1);
            let end = if whole < n && src[whole] == '.' && whole + 1 < n && is_digit(
                src[whole + 1],
            ) {
                digit_run_end(src, whole + 1)
            } else {
                whole
            };
            if whole < n && src[whole] == '.' && whole + 1 < n && is_digit(src[whole + 1]) {
                lemma_digit_run_end(src, whole + 1);
            }
            lemma_token_lines_bounded(src, end, line);
            lemma_newline_count_split(src, i, end, n);
            assert forall|k: int| i <= k < end implies (#[trigger] src[k]) != '\n' by {
                if k == i {
                } else if k < whole {
                    assert(is_digit(src[k]));
                } else if k == whole {
                } else {
                    assert(is_digit(src[k]));
                }
            }
            lemma_newline_count_zero(src, i, end);
            lemma_lines_cons(
                res.tokens,
                res.tokens[0],
                scan_from(src, end, line).tokens,
                line,
                line + newline_count(src, i, n),
            );
        } else if is_ident_char(c) {
            let end = ident_run_end(src, i + 1);
            lemma_ident_run_end(src, i + 1);
            lemma_token_lines_bounded(src, end, line);
            lemma_newline_count_split(src, i, end, n);
            assert forall|k: int| i <= k < end implies (#[trigger] src[k]) != '\n' by {
                if k > i {
                    assert(is_ident_char(src[k]));
                }
            }
            lemma_newline_count_zero(src, i, end);
            lemma_lines_cons(
                res.tokens,
                res.tokens[0],
                scan_from(src, end, line).tokens,
                line,
                line + newline_count(src, i, n),
            );
        } else {
            lemma_token_lines_bounded(src, i + 1, line);
            lemma_newline_count_split(src, i, i + 1, n);
            assert(newline_count(src, i + 1, i + 1) == 0);
            assert(newline_count(src, i, i + 1) == 0);
            lemma_lines_within(
                res.tokens,
                line,
                line + newline_count(src, i, n),
                line,
                line + newline_count(src, i + 1, n),
            );
        }
    }
}

/// A source whose characters all begin lexemes, whitespace or comments — and
/// which therefore holds no string literal and no unexpected character —
/// scans without a single error.
pub open spec fn is_recognized(c: char) -> bool {
    single_kind(c) is Some || is_operator_start(c) || c == '/' || c == '\n' || is_space(c)
        || is_digit(c) || is_ident_char(c)
}

/// A scan over recognized, quote-free text collects no errors.
pub proof fn lemma_recognized_scans_clean(src: Seq<char>, i: int, line: int)
    requires
        0 <= i <= src.len(),
        forall|k: int|
            i <= k < src.len() ==> is_recognized(#[trigger] src[k]) && src[k] != '"',
    ensures
        scan_from(src, i, line).errors == Seq::<SpecLexicalError>::empty(),
    decreases src.len() - i,
{
    let n = src.len() as int;
    if i < n {
        let c = src[i];
        if single_kind(c) is Some {
            lemma_recognized_scans_clean(src, i + 1, line);
        } else if is_operator_start(c) {
            if i + 1 < n && src[i + 1] == '=' {
                lemma_recognized_scans_clean(src, i + 2, line);
            } else {
                lemma_recognized_scans_clean(src, i + 1, line);
            }
        } else if c == '/' {
            if i + 1 < n && src[i + 1] == '/' {
                lemma_comment_end(src, i + 2);
                lemma_recognized_scans_clean(src, comment_end(src, i + 2), line);
            } else {
                lemma_recognized_scans_clean(src, i + 1, line);
            }
        } else if c == '\n' {
            lemma_recognized_scans_clean(src, i + 1, line + 1);
        } else if is_space(c) {
            lemma_recognized_scans_clean(src, i + 1, line);
        } else if c == '"' {
            assert(false);
        } else if is_digit(c) {
            let whole = digit_run_end(src, i + 1);
            lemma_digit_run_end(src, i + 1);
            let end = if whole < n && src[whole] == '.' && whole + 1 < n && is_digit(
                src[whole + 1],
            ) {
                digit_run_end(src, whole + 1)
            } else {
                whole
            };
            if whole < n && src[whole] == '.' && whole + 1 < n && is_digit(src[whole + 1]) {
                lemma_digit_run_end(src, whole + 1);
            }
            lemma_recognized_scans_clean(src, end, line);
        } else if is_ident_char(c) {
            lemma_ident_run_end(src, i + 1);
            lemma_recognized_scans_clean(src, ident_run_end(src, i + 1), line);
        } else {
            assert(!is_recognized(src[i]));
            assert(false);
        }
    }
}

/// Scanning identical source text twice yields identical token and error
/// sequences: the scan is a function of the source alone.
pub proof fn lemma_scan_deterministic(s1: Seq<char>, s2: Seq<char>, i: int, line: int)
    requires
        s1 == s2,
    ensures
        scan_from(s1, i, line) == scan_from(s2, i, line),
{
}

/// Longest match stops before a dot with no digit after it: a digit run
/// followed by `.` and then a non-digit (or the end of the input) yields the
/// number token of the digit run alone, and then a dot token — the dot is not
/// absorbed.
pub proof fn lemma_number_does_not_absorb_dot(src: Seq<char>, i: int, line: int)
    requires
        0 <= i < src.len(),
        is_digit(src[i]),
        digit_run_end(src, i + 1) < src.len(),
        src[digit_run_end(src, i + 1)] == '.',
        digit_run_end(src, i + 1) + 1 == src.len() || !is_digit(
            src[digit_run_end(src, i + 1) + 1],
        ),
    ensures
        scan_from(src, i, line).tokens.len() >= 2,
        scan_from(src, i, line).tokens[0] == slice_token(
            src,
            TokenType::Number,
            i,
            digit_run_end(src, i + 1),
            Some(SpecLiteral::Num(src.subrange(i, digit_run_end(src, i + 1)))),
            line,
        ),
        scan_from(src, i, line).tokens[1] == slice_token(
            src,
            TokenType::Dot,
            digit_run_end(src, i + 1),
            digit_run_end(src, i + 1) + 1,
            None,
            line,
        ),
{
    let j = digit_run_end(src, i + 1);
    lemma_digit_run_end(src, i + 1);
    assert(scan_from(src, i, line) == with_token(
        slice_token(
            src,
            TokenType::Number,
            i,
            j,
            Some(SpecLiteral::Num(src.subrange(i, j))),
            line,
        ),
        scan_from(src, j, line),
    ));
    assert(scan_from(src, j, line) == with_token(
        slice_token(src, TokenType::Dot, j, j + 1, None, line),
        scan_from(src, j + 1, line),
    ));
    lemma_scan_ends_in_eof(src, j + 1, line);
}

// ---------------------------------------------------------------------------
// Sequence glue used when relating the scanner's partial output to the model.
// ---------------------------------------------------------------------------
/// Moving the head of the remaining output onto the end of the finished
/// output keeps the whole unchanged.
pub proof fn lemma_shift<A>(total: Seq<A>, done: Seq<A>, x: A, rest: Seq<A>)
    requires
        total == done + (seq![x] + rest),
    ensures
        total == done.push(x) + rest,
{
    assert(done.push(x) + rest =~= done + (seq![x] + rest));
}

} // verus!
