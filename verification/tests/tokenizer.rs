use loose_sqlparser::options::Options;
use loose_sqlparser::tokenizer::Tokenizer;
use loose_sqlparser::tokens::TokenKind;

// Checks that `input` is captured as one token of the given kind, with the
// expected text and positions. The input is written twice, with a space
// between, so that the token is seen both before a space and at the end of the
// text. The input must not hold a carriage return or a line feed.
fn assert_token(input: &str, kind: TokenKind) {
    let text = format!("{} {}", input, input);
    let statement = Tokenizer::new(&text, Options::default()).unwrap().next();
    assert!(statement.is_some());
    let statement = statement.unwrap();
    let tokens = statement.tokens();
    assert_eq!(tokens.len(), 2, "Expected two tokens: {:?}", tokens);
    let count = input.chars().count();
    for (index, token) in tokens.iter().enumerate() {
        let expected_start_column = index * count + (index + 1);
        let expected_end_column = index * count + count + index;
        let expected_offset = index * input.len() + index;
        assert_eq!(token.value.kind(), kind, "Variant mismatch: {:?}", token);
        assert_eq!(token.value.as_ref(), input);
        assert_eq!(token.start.column, expected_start_column, "`start.column` mismatch: {:?}", token);
        assert_eq!(token.end.column, expected_end_column, "`end.column` mismatch: {:?}", token);
        assert_eq!(token.start.offset, expected_offset, "`offset` mismatch: {:?}", token);
    }
}

// Checks that `input` splits into statements whose tokens have the texts
// given, statement by statement.
fn assert_tokens(input: &str, expected: &[&[&str]]) {
    let mut statements = Tokenizer::new(input, Options::default()).unwrap();
    for texts in expected {
        let statement = statements.next();
        assert!(statement.is_some(), "Expected more statements.");
        assert_eq!(
            statement.as_ref().unwrap().tokens().as_str_array(),
            *texts,
            "Tokens do not match the expected values."
        );
    }
    assert!(statements.next().is_none(), "Expected no more statements.");
}

#[test]
fn test_quoted_identifier_with_unicode_escapes() {
    assert_token(r#"U&"d\\0061t\\+000061""#, TokenKind::QuotedIdentifierOrConstant);
    assert_token(r#"U&"\\0441\\043B\\043E\\043D""#, TokenKind::QuotedIdentifierOrConstant);
}

#[test]
fn test_escaped_or_unicode_string_constant() {
    assert_token("E''", TokenKind::QuotedIdentifierOrConstant);
    assert_token("E'hello\\world'", TokenKind::QuotedIdentifierOrConstant);
    assert_token("e''", TokenKind::QuotedIdentifierOrConstant);
    assert_token("e'hello\\world'", TokenKind::QuotedIdentifierOrConstant);
    assert_token("N''", TokenKind::QuotedIdentifierOrConstant);
    assert_token("N'こんにちは'", TokenKind::QuotedIdentifierOrConstant);
    assert_token("n''", TokenKind::QuotedIdentifierOrConstant);
    assert_token("n'こんにちは'", TokenKind::QuotedIdentifierOrConstant);
}

#[test]
fn test_bit_string_constant() {
    assert_token("B'100'", TokenKind::QuotedIdentifierOrConstant);
    assert_token("B''", TokenKind::QuotedIdentifierOrConstant);
    assert_token("b'100'", TokenKind::QuotedIdentifierOrConstant);
    assert_token("b''", TokenKind::QuotedIdentifierOrConstant);
    assert_token("x'1FF'", TokenKind::QuotedIdentifierOrConstant);
    assert_token("x''", TokenKind::QuotedIdentifierOrConstant);
}

#[test]
fn test_string_constant_with_charset_introducer() {
    assert_token("_latin1'string'", TokenKind::QuotedIdentifierOrConstant);
    assert_token("_latin1''", TokenKind::QuotedIdentifierOrConstant);
    assert_token("_binary'string'", TokenKind::QuotedIdentifierOrConstant);
    assert_token("_utf8mb4'string'", TokenKind::QuotedIdentifierOrConstant);
}

#[test]
fn test_capture_identifier_or_keyword_token() {
    assert_token("column", TokenKind::IdentifierOrKeyword);
    assert_token("column1", TokenKind::IdentifierOrKeyword);
    assert_token("column_", TokenKind::IdentifierOrKeyword);
    assert_token("column_name", TokenKind::IdentifierOrKeyword);
    assert_token("column$", TokenKind::IdentifierOrKeyword);
    assert_token("column$name", TokenKind::IdentifierOrKeyword);
    assert_token("ColumnName", TokenKind::IdentifierOrKeyword);
    assert_token("naïve_table", TokenKind::IdentifierOrKeyword);
    assert_token("_leading_underscore", TokenKind::IdentifierOrKeyword);
    assert_token("trailing_underscore_", TokenKind::IdentifierOrKeyword);
    assert_token("_leading_and_trailing_underscore_", TokenKind::IdentifierOrKeyword);
    assert_token("__double__underscores__", TokenKind::IdentifierOrKeyword);
    assert_token("_$$", TokenKind::IdentifierOrKeyword);
}

#[test]
fn test_numeric_constant_token() {
    assert_token("0", TokenKind::NumericConstant);
    assert_token("0.", TokenKind::NumericConstant);
    assert_token("1", TokenKind::NumericConstant);
    assert_token("42", TokenKind::NumericConstant);
    assert_token("3.5", TokenKind::NumericConstant);
    assert_token("4.", TokenKind::NumericConstant);
    assert_token(".001", TokenKind::NumericConstant);
    assert_token("5e2", TokenKind::NumericConstant);
    assert_token("1.925e-3", TokenKind::NumericConstant);
    assert_token("0b100101", TokenKind::NumericConstant);
    assert_token("0B10011001", TokenKind::NumericConstant);
    assert_token("0o273", TokenKind::NumericConstant);
    assert_token("0O755", TokenKind::NumericConstant);
    assert_token("0x42f", TokenKind::NumericConstant);
    assert_token("0XFFFF", TokenKind::NumericConstant);
    assert_token("1_500_000_000", TokenKind::NumericConstant);
    assert_token("0b10001000_00000000", TokenKind::NumericConstant);
    assert_token("0o_1_755", TokenKind::NumericConstant);
    assert_token("0xFFFF_FFFF", TokenKind::NumericConstant);
    assert_token("1.618_034", TokenKind::NumericConstant);

    // A sign is part of the constant only in its exponent.
    assert_tokens(
        "1.925e-3+1 1.925-3 1.925+3",
        &[&["1.925e-3", "+", "1", "1.925", "-", "3", "1.925", "+", "3"]],
    );

    // A malformed constant breaks where it goes wrong.
    assert_tokens("0xg", &[&["0x", "g"]]);
    assert_tokens("1.9eg", &[&["1.9e", "g"]]);
}

#[test]
fn test_comma() {
    assert_tokens("1, 2, /* , */", &[&["1", ",", "2", ",", "/* , */"]]);
}

#[test]
fn test_parameter_marker_token() {
    assert_token("?", TokenKind::ParameterMarker);
    assert_token("$1", TokenKind::ParameterMarker);
    assert_token(":username", TokenKind::ParameterMarker);
    assert_token("$username", TokenKind::ParameterMarker);
    assert_token("@username", TokenKind::ParameterMarker);
    assert_tokens("id = ? AND name = ?", &[&["id", "=", "?", "AND", "name", "=", "?"]]);
    assert_tokens(
        "id = ? AND name = '_prefix'||?||'_suffix'",
        &[&["id", "=", "?", "AND", "name", "=", "'_prefix'", "||", "?", "||", "'_suffix'"]],
    );
    assert_tokens("id = $1 AND name = $2", &[&["id", "=", "$1", "AND", "name", "=", "$2"]]);
    assert_tokens(
        "id = :user_id AND name = :user_name",
        &[&["id", "=", ":user_id", "AND", "name", "=", ":user_name"]],
    );
    assert_tokens(
        "id = @user_id AND name = @user_name",
        &[&["id", "=", "@user_id", "AND", "name", "=", "@user_name"]],
    );
    assert_tokens(
        "id = $user_id AND name = $user_name",
        &[&["id", "=", "$user_id", "AND", "name", "=", "$user_name"]],
    );
}

#[test]
fn test_operator_token() {
    assert_token("!~*", TokenKind::Operator);
    assert_token("!=", TokenKind::Operator);
    assert_token(">=", TokenKind::Operator);
    assert_token("<=", TokenKind::Operator);
    assert_token("<>", TokenKind::Operator);
    assert_token("||", TokenKind::Operator);
    assert_token("<<", TokenKind::Operator);
    assert_token(">>", TokenKind::Operator);
    assert_token("::", TokenKind::Operator);
    assert_token("~*", TokenKind::Operator);
    assert_token("!~", TokenKind::Operator);
    assert_token("+", TokenKind::Operator);
    assert_token("-", TokenKind::Operator);
    assert_token("*", TokenKind::Operator);
    assert_token("/", TokenKind::Operator);
    assert_token("=", TokenKind::Operator);
    assert_token(">", TokenKind::Operator);
    assert_token("<", TokenKind::Operator);
    assert_token("!", TokenKind::Operator);
    assert_token("%", TokenKind::Operator);
    assert_token("~", TokenKind::Operator);
    assert_token("&", TokenKind::Operator);
    assert_token("|", TokenKind::Operator);
    assert_token("^", TokenKind::Operator);
    assert_tokens(
        "1 + 2+3 -4-5 * 6*7 / 8/9",
        &[&["1", "+", "2", "+", "3", "-", "4", "-", "5", "*", "6", "*", "7", "/", "8", "/", "9"]],
    );
    assert_tokens(
        "123::TEXT '2024-08-22'::DATE",
        &[&["123", "::", "TEXT", "'2024-08-22'", "::", "DATE"]],
    );
}

#[test]
fn test_parenthesis() {
    assert_tokens("SELECT (1 + 2) * 3", &[&["SELECT", "(", "1", "+", "2", ")", "*", "3"]]);
    // A closing parenthesis that nothing opened does not stop the tokenizer.
    assert_tokens(
        "SELECT 1 + 2) + 3; SELECT 2",
        &[&["SELECT", "1", "+", "2", ")", "+", "3", ";"], &["SELECT", "2"]],
    );
    // A parenthesis that nothing closes does not hide the statement delimiter.
    assert_tokens(
        "SELECT (1 + 2 + 3; SELECT 2",
        &[&["SELECT", "(", "1", "+", "2", "+", "3", ";"], &["SELECT", "2"]],
    );
}

#[test]
fn test_delimited_token() {
    assert_token("$$O'Reilly$$", TokenKind::Delimited);
    assert_token("$tag$with_tag$tag$", TokenKind::Delimited);
    assert_token("$x$__$__$x$", TokenKind::Delimited);
    assert_tokens("$$O'Reilly", &[&["$$O'Reilly"]]);
}

#[test]
fn test_comment_token() {
    // multi-line comment
    assert_token("/* / */", TokenKind::Comment);
    assert_token("/** comment **/", TokenKind::Comment);
    assert_token("/* comment */", TokenKind::Comment);
    assert_token("/* /*nested*/comment */", TokenKind::Comment);
    assert_token("/*+ SET_VAR(foreign_key_checks=OFF) */", TokenKind::Comment);
    assert_tokens("BEGIN /* not closed...", &[&["BEGIN", "/* not closed..."]]);
    assert_tokens("BEGIN /* not closed...; BEGIN", &[&["BEGIN", "/* not closed...; BEGIN"]]);
    assert_tokens("/* line 1 \r\n line 2 */", &[&["/* line 1 \r\n line 2 */"]]);

    // single-line comment
    assert_tokens(
        "-- comment\n--comment\n# comment\n#comment",
        &[&["-- comment", "--comment", "# comment", "#comment"]],
    );
}

#[test]
fn test_quoted_identifier_or_constant() {
    assert_token(r#"''"#, TokenKind::QuotedIdentifierOrConstant);
    assert_token(r#""""ID""""#, TokenKind::QuotedIdentifierOrConstant);
    assert_token(r#""""#, TokenKind::QuotedIdentifierOrConstant);
    assert_token(r#""ID ""X""""#, TokenKind::QuotedIdentifierOrConstant);
    assert_token(r#"''''"#, TokenKind::QuotedIdentifierOrConstant);
    assert_token(r#"'O''Reilly'"#, TokenKind::QuotedIdentifierOrConstant);
    assert_tokens("'missing ''end quote", &[&["'missing ''end quote"]]);
    // A string constant followed by a cast.
    assert_tokens("'2024-08-22'::DATE", &[&["'2024-08-22'", "::", "DATE"]]);
}

#[test]
fn test_empty_input() {
    let s = Tokenizer::new("", Options::default()).unwrap().collect();
    assert_eq!(s.len(), 0);
    let s = Tokenizer::new(" \r\n ", Options::default()).unwrap().collect();
    assert_eq!(s.len(), 0);
    let s = Tokenizer::new("\r\n", Options::default()).unwrap().collect();
    assert_eq!(s.len(), 0);
}

#[test]
fn test_some_random_syntax_edge_cases() {
    assert_token(".", TokenKind::Any);
    assert_tokens(".x2", &[&[".", "x2"]]);
}
