use lox_lexer::error::{LexicalError, LexicalErrorType};
use lox_lexer::lexer::Lexer;
use lox_lexer::token::{Literal, Token};
use lox_lexer::token_type::TokenType;

fn assert_tokens(source: &str, expected_tokens: Vec<Token>) {
    let mut lexer = Lexer::new(source);
    let (tokens, errors) = lexer.scan_tokens();

    assert!(errors.is_empty(), "Unexpected lexical errors: {:?}", errors);
    assert_eq!(
        tokens.len(),
        expected_tokens.len(),
        "Token count mismatch. Expected {} tokens, got {}",
        expected_tokens.len(),
        tokens.len()
    );

    for (actual, expected) in tokens.iter().zip(expected_tokens.iter()) {
        assert_eq!(
            actual, expected,
            "\nExpected token: {:?}\nActual token: {:?}",
            expected, actual
        );
    }
}

#[test]
fn test_single_character_tokens() {
    let source = "(){},.-+;*";
    let expected = vec![
        Token::new(TokenType::LeftParen, "(".to_string(), None, 1),
        Token::new(TokenType::RightParen, ")".to_string(), None, 1),
        Token::new(TokenType::LeftBrace, "{".to_string(), None, 1),
        Token::new(TokenType::RightBrace, "}".to_string(), None, 1),
        Token::new(TokenType::Comma, ",".to_string(), None, 1),
        Token::new(TokenType::Dot, ".".to_string(), None, 1),
        Token::new(TokenType::Minus, "-".to_string(), None, 1),
        Token::new(TokenType::Plus, "+".to_string(), None, 1),
        Token::new(TokenType::Semicolon, ";".to_string(), None, 1),
        Token::new(TokenType::Star, "*".to_string(), None, 1),
        Token::new(TokenType::Eof, "".to_string(), None, 1),
    ];
    assert_tokens(source, expected);
}

#[test]
fn test_one_or_two_character_tokens() {
    let source = "! != = == > >= < <= //";
    let expected = vec![
        Token::new(TokenType::Bang, "!".to_string(), None, 1),
        Token::new(TokenType::BangEqual, "!=".to_string(), None, 1),
        Token::new(TokenType::Equal, "=".to_string(), None, 1),
        Token::new(TokenType::EqualEqual, "==".to_string(), None, 1),
        Token::new(TokenType::Greater, ">".to_string(), None, 1),
        Token::new(TokenType::GreaterEqual, ">=".to_string(), None, 1),
        Token::new(TokenType::Less, "<".to_string(), None, 1),
        Token::new(TokenType::LessEqual, "<=".to_string(), None, 1),
        Token::new(TokenType::Eof, "".to_string(), None, 1),
    ];
    assert_tokens(source, expected);
}

#[test]
fn test_string_literals() {
    let source = "\"Hello, World!\" \"Multi\nline\nstring\"";
    let expected = vec![
        Token::new(
            TokenType::String,
            "\"Hello, World!\"".to_string(),
            Some(Literal::String("Hello, World!".to_string())),
            1,
        ),
        Token::new(
            TokenType::String,
            "\"Multi\nline\nstring\"".to_string(),
            Some(Literal::String("Multi\nline\nstring".to_string())),
            3,
        ),
        Token::new(TokenType::Eof, "".to_string(), None, 3),
    ];
    assert_tokens(source, expected);
}

#[test]
fn test_number_literals() {
    let source = "123 123.456 0.123";
    let expected = vec![
        Token::new(
            TokenType::Number,
            "123".to_string(),
            Some(Literal::Number("123".to_string())),
            1,
        ),
        Token::new(
            TokenType::Number,
            "123.456".to_string(),
            Some(Literal::Number("123.456".to_string())),
            1,
        ),
        Token::new(
            TokenType::Number,
            "0.123".to_string(),
            Some(Literal::Number("0.123".to_string())),
            1,
        ),
        Token::new(TokenType::Eof, "".to_string(), None, 1),
    ];
    assert_tokens(source, expected);
}

#[test]
fn test_keywords_and_identifiers() {
    let source = "var number = 42;";
    let expected = vec![
        Token::new(TokenType::Var, "var".to_string(), None, 1),
        Token::new(TokenType::Identifier, "number".to_string(), None, 1),
        Token::new(TokenType::Equal, "=".to_string(), None, 1),
        Token::new(
            TokenType::Number,
            "42".to_string(),
            Some(Literal::Number("42".to_string())),
            1,
        ),
        Token::new(TokenType::Semicolon, ";".to_string(), None, 1),
        Token::new(TokenType::Eof, "".to_string(), None, 1),
    ];
    assert_tokens(source, expected);
}

#[test]
fn test_empty_source_yields_only_eof() {
    let mut lexer = Lexer::new("");
    let (tokens, errors) = lexer.scan_tokens();
    assert!(errors.is_empty());
    assert_eq!(tokens, vec![Token::new(TokenType::Eof, "".to_string(), None, 1)]);
}

#[test]
fn test_token_sequence_always_ends_with_eof() {
    for source in ["", "+", "var x;", "@#\"oops", "// only a comment", "\"open"] {
        let mut lexer = Lexer::new(source);
        let (tokens, _) = lexer.scan_tokens();
        assert!(!tokens.is_empty());
        let last = tokens.last().unwrap();
        assert_eq!(*last, Token::new(TokenType::Eof, "".to_string(), None, line_count(source)));
    }
}

fn line_count(source: &str) -> usize {
    1 + source.chars().filter(|c| *c == '\n').count()
}

#[test]
fn test_clean_source_scans_without_errors() {
    let source = "fun add(a, b) { return a + b; } // sum\nprint add(1, 2.5);\n";
    let mut lexer = Lexer::new(source);
    let (_, errors) = lexer.scan_tokens();
    assert!(errors.is_empty());
}

#[test]
fn test_scanning_twice_yields_identical_results() {
    let source = "var x = 1; // first\n\"two\nlines\" @";
    let mut first = Lexer::new(source);
    let mut second = Lexer::new(source);
    let (tokens_a, errors_a) = first.scan_tokens();
    let (tokens_b, errors_b) = second.scan_tokens();
    assert_eq!(tokens_a, tokens_b);
    assert_eq!(errors_a, errors_b);
}

#[test]
fn test_token_lines_count_preceding_newlines() {
    let source = "a\nb\n\ncd";
    let expected = vec![
        Token::new(TokenType::Identifier, "a".to_string(), None, 1),
        Token::new(TokenType::Identifier, "b".to_string(), None, 2),
        Token::new(TokenType::Identifier, "cd".to_string(), None, 4),
        Token::new(TokenType::Eof, "".to_string(), None, 4),
    ];
    assert_tokens(source, expected);
}

#[test]
fn test_number_does_not_absorb_trailing_dot() {
    let source = "1.foo";
    let expected = vec![
        Token::new(
            TokenType::Number,
            "1".to_string(),
            Some(Literal::Number("1".to_string())),
            1,
        ),
        Token::new(TokenType::Dot, ".".to_string(), None, 1),
        Token::new(TokenType::Identifier, "foo".to_string(), None, 1),
        Token::new(TokenType::Eof, "".to_string(), None, 1),
    ];
    assert_tokens(source, expected);
}

#[test]
fn test_unexpected_character_is_collected_and_scanning_continues() {
    let source = "+\n@ -";
    let mut lexer = Lexer::new(source);
    let (tokens, errors) = lexer.scan_tokens();
    assert_eq!(
        errors,
        vec![LexicalError::new(LexicalErrorType::UnexpectedCharacter('@'), 2)]
    );
    let expected = vec![
        Token::new(TokenType::Plus, "+".to_string(), None, 1),
        Token::new(TokenType::Minus, "-".to_string(), None, 2),
        Token::new(TokenType::Eof, "".to_string(), None, 2),
    ];
    assert_eq!(tokens, expected);
}

#[test]
fn test_unterminated_string_is_reported_at_final_line() {
    let source = "+ \"one\ntwo";
    let mut lexer = Lexer::new(source);
    let (tokens, errors) = lexer.scan_tokens();
    assert_eq!(
        errors,
        vec![LexicalError::new(LexicalErrorType::UnterminatedString, 2)]
    );
    let expected = vec![
        Token::new(TokenType::Plus, "+".to_string(), None, 1),
        Token::new(TokenType::Eof, "".to_string(), None, 2),
    ];
    assert_eq!(tokens, expected);
}

#[test]
fn test_comment_runs_to_end_of_line_only() {
    let source = "// discard * all of this\n;";
    let expected = vec![
        Token::new(TokenType::Semicolon, ";".to_string(), None, 2),
        Token::new(TokenType::Eof, "".to_string(), None, 2),
    ];
    assert_tokens(source, expected);
}

#[test]
fn test_slash_alone_is_division() {
    let source = "6 / 3";
    let expected = vec![
        Token::new(
            TokenType::Number,
            "6".to_string(),
            Some(Literal::Number("6".to_string())),
            1,
        ),
        Token::new(TokenType::Slash, "/".to_string(), None, 1),
        Token::new(
            TokenType::Number,
            "3".to_string(),
            Some(Literal::Number("3".to_string())),
            1,
        ),
        Token::new(TokenType::Eof, "".to_string(), None, 1),
    ];
    assert_tokens(source, expected);
}

#[test]
fn test_all_sixteen_keywords() {
    let source = "and class else false fun for if nil or print return super this true var while";
    let kinds = [
        TokenType::And,
        TokenType::Class,
        TokenType::Else,
        TokenType::False,
        TokenType::Fun,
        TokenType::For,
        TokenType::If,
        TokenType::Nil,
        TokenType::Or,
        TokenType::Print,
        TokenType::Return,
        TokenType::Super,
        TokenType::This,
        TokenType::True,
        TokenType::Var,
        TokenType::While,
    ];
    let mut expected: Vec<Token> = source
        .split(' ')
        .zip(kinds.iter())
        .map(|(word, kind)| Token::new(*kind, word.to_string(), None, 1))
        .collect();
    expected.push(Token::new(TokenType::Eof, "".to_string(), None, 1));
    assert_tokens(source, expected);
}

#[test]
fn test_keyword_prefix_is_an_identifier() {
    let source = "classify orchid";
    let expected = vec![
        Token::new(TokenType::Identifier, "classify".to_string(), None, 1),
        Token::new(TokenType::Identifier, "orchid".to_string(), None, 1),
        Token::new(TokenType::Eof, "".to_string(), None, 1),
    ];
    assert_tokens(source, expected);
}

#[test]
fn test_cursor_helpers_consume_on_match_only() {
    let mut lexer = Lexer::new("ab");
    assert!(!lexer.current_char_matches('b'));
    assert!(lexer.current_char_matches('a'));
    assert_eq!(lexer.advance(), 'a');
    assert!(!lexer.advance_if_equal('a'));
    assert!(lexer.advance_if_equal('b'));
    assert!(!lexer.advance_if_equal('b'));
}

#[test]
fn test_string_payload_strips_quotes_only() {
    let source = "\"a + b // not a comment\"";
    let expected = vec![
        Token::new(
            TokenType::String,
            "\"a + b // not a comment\"".to_string(),
            Some(Literal::String("a + b // not a comment".to_string())),
            1,
        ),
        Token::new(TokenType::Eof, "".to_string(), None, 1),
    ];
    assert_tokens(source, expected);
}
