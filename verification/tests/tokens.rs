use loose_sqlparser::{Position, Token, TokenValue, Tokens};

#[test]
fn test_helper_functions() {
    assert!(Token::new(TokenValue::Any("."), Position::new(1, 1, 0), Position::new(1, 1, 1)).is_any());
    assert!(Token::new(TokenValue::NumericConstant("42"), Position::new(1, 1, 0), Position::new(1, 2, 1))
        .is_numeric_constant());
    assert!(Token::new(TokenValue::Comment("--"), Position::new(1, 1, 0), Position::new(1, 3, 2)).is_comment());
    assert!(Token::new(
        TokenValue::QuotedIdentifierOrConstant("'Hello'"),
        Position::new(1, 1, 0),
        Position::new(1, 8, 7)
    )
    .is_quoted_identifier_or_constant());
    assert!(Token::new(TokenValue::Fragment(Tokens::new()), Position::new(1, 1, 0), Position::new(1, 1, 0))
        .is_fragment());
    assert!(Token::new(TokenValue::StatementDelimiter(";"), Position::new(1, 1, 0), Position::new(1, 1, 0))
        .is_statement_delimiter());
    assert!(Token::new(TokenValue::Operator("+"), Position::new(1, 1, 0), Position::new(1, 1, 0)).is_operator());
    assert!(Token::new(TokenValue::Any("("), Position::new(1, 1, 0), Position::new(1, 1, 0)).is_parenthesis());
    assert!(Token::new(TokenValue::Any(")"), Position::new(1, 1, 0), Position::new(1, 1, 0)).is_parenthesis());
    assert!(!Token::new(TokenValue::Any("}"), Position::new(1, 1, 0), Position::new(1, 1, 0)).is_parenthesis());
    assert!(!Token::new(TokenValue::Operator("+"), Position::new(1, 1, 0), Position::new(1, 1, 0)).is_parenthesis());
    assert!(Token::new(TokenValue::Any(","), Position::new(1, 1, 0), Position::new(1, 1, 0)).is_comma());
    assert!(!Token::new(TokenValue::Any("."), Position::new(1, 1, 0), Position::new(1, 1, 0)).is_comma());
    assert!(!Token::new(TokenValue::Operator("+"), Position::new(1, 1, 0), Position::new(1, 1, 0)).is_comma());
    assert!(Token::new(TokenValue::IdentifierOrKeyword("SELECT"), Position::new(1, 1, 0), Position::new(1, 6, 5))
        .is_identifier_or_keyword());
    assert!(Token::new(TokenValue::ParameterMarker("?"), Position::new(1, 1, 0), Position::new(1, 1, 0))
        .is_parameter_marker());
}

#[test]
fn test_children() {
    assert!(Token::new(TokenValue::Fragment(Tokens::new()), Position::new(1, 1, 0), Position::new(1, 1, 0))
        .children()
        .is_some());
    assert!(Token::new(TokenValue::Any("SELECT"), Position::new(1, 1, 0), Position::new(1, 6, 5))
        .children()
        .is_none());
}

#[test]
fn test_delimited_is_a_kind_of_its_own() {
    let token = Token::new(TokenValue::Delimited("$$a$$"), Position::new(1, 1, 0), Position::new(1, 5, 5));
    assert!(token.is_delimited());
    assert!(!token.is_quoted_identifier_or_constant());
    assert_eq!(token.value.as_ref(), "$$a$$");
    assert_eq!(token.as_str_array(), ["$$a$$"]);
}

#[test]
fn test_parenthesis_of_two_characters_is_none() {
    assert!(!Token::new(TokenValue::Any("()"), Position::new(1, 1, 0), Position::new(1, 2, 2)).is_parenthesis());
    assert!(!Token::new(TokenValue::Any(""), Position::new(1, 1, 0), Position::new(1, 1, 0)).is_comma());
}

#[test]
fn test_as_str_array_of_nested_fragments() {
    let mut inner = Tokens::new();
    inner.push(Token::new(TokenValue::NumericConstant("1"), Position::new(1, 3, 2), Position::new(1, 3, 3)));
    let mut outer = Tokens::new();
    outer.push(Token::new(TokenValue::Any("("), Position::new(1, 2, 1), Position::new(1, 2, 2)));
    outer.push(Token::new(TokenValue::Fragment(inner), Position::new(1, 3, 2), Position::new(1, 3, 3)));
    outer.push(Token::new(TokenValue::Any(")"), Position::new(1, 4, 3), Position::new(1, 4, 4)));
    let mut all = Tokens::new();
    all.push(Token::new(TokenValue::Any("("), Position::new(1, 1, 0), Position::new(1, 1, 1)));
    all.push(Token::new(TokenValue::Fragment(outer), Position::new(1, 2, 1), Position::new(1, 4, 4)));
    all.push(Token::new(TokenValue::Any(")"), Position::new(1, 5, 4), Position::new(1, 5, 5)));
    assert_eq!(all.as_str_array(), ["(", "(", "1", ")", ")"]);
    assert_eq!(all[1].as_str_array(), ["(", "1", ")"]);
    assert_eq!(all[1].children().unwrap().len(), 3);
}
