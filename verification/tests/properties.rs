use loose_sqlparser::{loose_sqlparse, Statement, Token, TokenKind, Tokens};

// The leaves of a sequence of tokens, from left to right.
fn leaves<'a, 's>(tokens: &'a Tokens<'s>, out: &mut Vec<&'a Token<'s>>) {
    for token in tokens.iter() {
        match token.children() {
            Some(children) => leaves(children, out),
            None => out.push(token),
        }
    }
}

// Checks that the leaves of the statement, with nothing but white space
// between them, make up the text of the statement.
fn assert_round_trip(input: &str, statement: &Statement) {
    let mut found = Vec::new();
    leaves(statement.tokens(), &mut found);
    let mut at = statement.start().offset;
    let mut rebuilt = String::new();
    for leaf in found {
        assert!(at <= leaf.start.offset, "tokens overlap: {:?}", leaf);
        let gap = &input[at..leaf.start.offset];
        assert!(gap.chars().all(|c| c.is_whitespace()), "lost {:?} before {:?}", gap, leaf);
        rebuilt.push_str(gap);
        assert_eq!(leaf.value.as_ref(), &input[leaf.start.offset..leaf.end.offset]);
        rebuilt.push_str(leaf.value.as_ref());
        at = leaf.end.offset;
    }
    let rest = &input[at..statement.end().offset];
    assert!(rest.chars().all(|c| c.is_whitespace()), "lost {:?} at the end", rest);
    rebuilt.push_str(rest);
    assert_eq!(rebuilt, statement.sql());
    assert_eq!(statement.sql(), &input[statement.start().offset..statement.end().offset]);
}

// Checks that the positions of the tokens only increase, in each fragment too.
fn assert_positions_increase(tokens: &Tokens) {
    for token in tokens.iter() {
        assert!(token.start.offset <= token.end.offset, "{:?}", token);
        if token.start.offset < token.end.offset {
            assert!(token.start.line <= token.end.line, "{:?}", token);
            if token.start.line == token.end.line {
                assert!(token.start.column <= token.end.column, "{:?}", token);
            }
        }
        if let Some(children) = token.children() {
            assert_positions_increase(children);
        }
    }
    for pair in tokens.windows(2) {
        assert!(pair[0].end.offset <= pair[1].start.offset, "{:?}", pair);
        assert!(pair[0].start.offset <= pair[1].start.offset, "{:?}", pair);
        assert!(pair[0].start.line <= pair[1].start.line, "{:?}", pair);
        assert!(pair[0].end.line <= pair[1].start.line, "{:?}", pair);
        if pair[0].start.line == pair[1].start.line {
            assert!(pair[0].start.column <= pair[1].start.column, "{:?}", pair);
        }
        if pair[0].end.line == pair[1].start.line {
            assert!(pair[0].end.column <= pair[1].start.column, "{:?}", pair);
        }
    }
}

const SAMPLES: [&str; 12] = [
    "SELECT 1",
    "SELECT (1 + 2) * 3, 'a''b' FROM t -- c\n; SELECT 2",
    "WITH a AS (\n  (SELECT 1, (2))\r\n  UNION ALL\n  (SELECT $1, :n, @m, ?)\n) SELECT * FROM a;",
    "SELECT 1 + 2) + 3; SELECT 2",
    "SELECT (1 + 2 + 3; SELECT 2",
    "SELECT ((( 'x', \"y\", `z`",
    "/* not closed; 'x' ",
    "'not closed\n; $$ ; ",
    "$tag$ a ; b $tag$ ; $ ; $$",
    "naïve = N'こんにちは' || U&\"d\\0061\" ; \u{1F600} , 𝟙",
    "a\rb\r\nc\n\n\td ; ( \r ) ; (",
    "1.5e+3-0x1F*.5e/0b1_0::int !~* x <> y {[,]} \\ ~",
];

#[test]
fn test_round_trip() {
    for input in SAMPLES {
        let statements = loose_sqlparse(input).collect();
        for statement in &statements {
            assert_round_trip(input, statement);
        }
    }
}

#[test]
fn test_round_trip_without_blanks() {
    let input = "SELECT(1+(2))*'a'||$$b c$$;";
    let statements = loose_sqlparse(input).collect();
    assert_eq!(statements.len(), 1);
    assert_eq!(statements[0].tokens().as_str_array().concat(), input);
    assert_eq!(statements[0].sql(), input);
}

#[test]
fn test_nothing_but_white_space_is_lost_between_statements() {
    for input in SAMPLES {
        let statements = loose_sqlparse(input).collect();
        let mut at = 0;
        for statement in &statements {
            let gap = &input[at..statement.start().offset];
            assert!(gap.chars().all(|c| c.is_whitespace()), "lost {:?}", gap);
            at = statement.end().offset;
        }
        assert!(input[at..].chars().all(|c| c.is_whitespace()));
    }
}

#[test]
fn test_scan_ends() {
    for input in SAMPLES {
        let mut statements = loose_sqlparse(input);
        let mut count = 0;
        let mut left = statements.remaining_input().len();
        while let Some(statement) = statements.next() {
            count += 1;
            assert!(!statement.tokens().is_empty());
            assert!(statements.remaining_input().len() < left);
            left = statements.remaining_input().len();
        }
        assert!(count <= input.chars().count());
        assert!(statements.next().is_none());
    }
}

#[test]
fn test_positions_increase() {
    for input in SAMPLES {
        for statement in &loose_sqlparse(input).collect() {
            assert_positions_increase(statement.tokens());
        }
    }
}

#[test]
fn test_escaped_quote() {
    let input = "'O''Reilly'";
    let statements = loose_sqlparse(input).collect();
    assert_eq!(statements.len(), 1);
    let tokens = statements[0].tokens();
    assert_eq!(tokens.len(), 1);
    assert!(tokens[0].is_quoted_identifier_or_constant());
    assert_eq!(tokens[0].value.as_ref(), input);
    assert_eq!(tokens[0].start.offset, 0);
    assert_eq!(tokens[0].end.offset, input.len());
}

#[test]
fn test_unbalanced_parentheses_do_not_break_splitting() {
    let statements = loose_sqlparse("SELECT 1 + 2) + 3; SELECT 2").collect();
    assert_eq!(statements.len(), 2);
    assert_eq!(statements[0].sql(), "SELECT 1 + 2) + 3;");
    assert!(statements[0].tokens()[4].is_parenthesis());
    assert!(statements[0].tokens()[4].is_any());
    assert!(statements[0].tokens()[7].is_statement_delimiter());
    assert_eq!(statements[1].sql(), "SELECT 2");
}

#[test]
fn test_nested_comment() {
    let input = "/* /*nested*/comment */";
    let statements = loose_sqlparse(input).collect();
    assert_eq!(statements.len(), 1);
    let tokens = statements[0].tokens();
    assert_eq!(tokens.len(), 1);
    assert!(tokens[0].is_comment());
    assert_eq!(tokens[0].value.as_ref(), input);
    // One `*/` does not close two comments.
    let statements = loose_sqlparse("/* /* a */ b").collect();
    assert_eq!(statements[0].tokens().as_str_array(), ["/* /* a */ b"]);
    // The `*` that opens a comment does not close it.
    let statements = loose_sqlparse("/*/ a */ b").collect();
    assert_eq!(statements[0].tokens().as_str_array(), ["/*/ a */", "b"]);
}

#[test]
fn test_dollar_quoting() {
    let input = "$tag$with_tag$tag$";
    let statements = loose_sqlparse(input).collect();
    assert_eq!(statements.len(), 1);
    let tokens = statements[0].tokens();
    assert_eq!(tokens.len(), 1);
    assert!(tokens[0].is_delimited());
    assert_eq!(tokens[0].value.kind(), TokenKind::Delimited);
    assert_eq!(tokens[0].value.as_ref(), input);
    // Another tag does not end the text, and neither does the delimiter.
    let statements = loose_sqlparse("$a$ $b$ ; $A$ $a$;").collect();
    assert_eq!(statements.len(), 1);
    assert_eq!(statements[0].tokens().as_str_array(), ["$a$ $b$ ; $A$ $a$", ";"]);
}

#[test]
fn test_empty_statements() {
    let statements = loose_sqlparse("SELECT 1;\n\t \n;;SELECT 2").collect();
    assert_eq!(statements.len(), 4);
    assert_eq!(statements[0].sql(), "SELECT 1;");
    assert_eq!(statements[1].sql(), ";");
    assert_eq!(statements[2].sql(), ";");
    assert_eq!(statements[3].sql(), "SELECT 2");
    assert_eq!(statements[1].start().line, 3);
    assert_eq!(statements[1].start().column, 1);
    assert_eq!(statements[2].start().column, 2);
    assert!(!statements[0].is_empty());
    assert!(statements[1].is_empty());
    assert!(statements[2].is_empty());
    assert!(!statements[3].is_empty());
}

#[test]
fn test_positions_count_bytes_lines_and_characters() {
    // One, two, three and four bytes to the character.
    let input = "'a' 'é'\n'こ' '😀'\r\n\rx";
    let statements = loose_sqlparse(input).collect();
    let tokens = statements[0].tokens();
    let found: Vec<_> = tokens
        .iter()
        .map(|t| {
            (
                t.value.as_ref(),
                (t.start.line, t.start.column, t.start.offset),
                (t.end.line, t.end.column, t.end.offset),
            )
        })
        .collect();
    assert_eq!(
        found,
        [
            ("'a'", (1, 1, 0), (1, 3, 3)),
            ("'é'", (1, 5, 4), (1, 7, 8)),
            ("'こ'", (2, 1, 9), (2, 3, 14)),
            ("'😀'", (2, 5, 15), (2, 7, 21)),
            ("x", (3, 1, 24), (3, 1, 25)),
        ]
    );
}

#[test]
fn test_positions_of_a_token_of_several_lines() {
    let input = "a /* 1\n2\n3 */ b";
    let statements = loose_sqlparse(input).collect();
    let tokens = statements[0].tokens();
    assert_eq!(tokens[1].value.as_ref(), "/* 1\n2\n3 */");
    assert_eq!((tokens[1].start.line, tokens[1].start.column, tokens[1].start.offset), (1, 3, 2));
    assert_eq!((tokens[1].end.line, tokens[1].end.column, tokens[1].end.offset), (3, 4, 13));
    assert_eq!((tokens[2].start.line, tokens[2].start.column, tokens[2].start.offset), (3, 6, 14));
}

#[test]
fn test_positions_of_fragments() {
    let statements = loose_sqlparse("f(a, (b))()(").collect();
    let tokens = statements[0].tokens();
    assert_eq!(tokens.as_str_array(), ["f", "(", "a", ",", "(", "b", ")", ")", "(", ")", "("]);
    assert_eq!(tokens.len(), 9);
    // f ( [a , ( [b] )] ) ( [] ) ( []
    let first = &tokens[2];
    assert!(first.is_fragment());
    assert_eq!((first.start.column, first.start.offset), (3, 2));
    assert_eq!((first.end.column, first.end.offset), (8, 8));
    let inner = &first.children().unwrap()[3];
    assert!(inner.is_fragment());
    assert_eq!((inner.start.column, inner.start.offset), (7, 6));
    assert_eq!((inner.end.column, inner.end.offset), (7, 7));
    // An empty fragment starts at the parenthesis that closes it and ends
    // behind the one that opens it.
    let empty = &tokens[5];
    assert!(empty.is_fragment());
    assert_eq!(empty.children().unwrap().len(), 0);
    assert_eq!((empty.start.column, empty.start.offset), (11, 10));
    assert_eq!((empty.end.column, empty.end.offset), (10, 10));
    // At the end of the text a fragment starts where the text ends.
    let last = &tokens[8];
    assert!(last.is_fragment());
    assert_eq!((last.start.line, last.start.column, last.start.offset), (1, 12, 12));
    assert_eq!((last.end.line, last.end.column, last.end.offset), (1, 12, 12));
}

#[test]
fn test_text_of_a_token() {
    let statements = loose_sqlparse("f( a ,\n( b ) )").collect();
    let tokens = statements[0].tokens();
    assert_eq!(tokens[0].to_string(), "f");
    assert_eq!(tokens[2].to_string(), "a,(b)");
    assert_eq!(tokens[2].as_str_array(), ["a", ",", "(", "b", ")"]);
}

#[test]
fn test_markers_and_lone_sigils() {
    let statements = loose_sqlparse("$ : @ ? ?1 $1 :a @b ::").collect();
    let kinds: Vec<_> =
        statements[0].tokens().iter().map(|t| (t.value.as_ref(), t.value.kind())).collect();
    assert_eq!(
        kinds,
        [
            ("$", TokenKind::Any),
            (":", TokenKind::Any),
            ("@", TokenKind::Any),
            ("?", TokenKind::ParameterMarker),
            ("?1", TokenKind::ParameterMarker),
            ("$1", TokenKind::ParameterMarker),
            (":a", TokenKind::ParameterMarker),
            ("@b", TokenKind::ParameterMarker),
            ("::", TokenKind::Operator),
        ]
    );
}

#[test]
fn test_tokens_side_by_side() {
    let statements = loose_sqlparse("a,'b'?'c',:d,U&\"e\"Bob'f''g'b'h''i'").collect();
    assert_eq!(
        statements[0].tokens().as_str_array(),
        ["a", ",", "'b'", "?", "'c'", ",", ":d", ",", "U&\"e\"", "Bob'f'", "'g'", "b'h'", "'i'"]
    );
}

#[test]
fn test_letters_and_digits_beyond_ascii() {
    let statements = loose_sqlparse("été ٣ \u{00A0}x\u{2003}2x ²").collect();
    let kinds: Vec<_> =
        statements[0].tokens().iter().map(|t| (t.value.as_ref(), t.value.kind())).collect();
    assert_eq!(
        kinds,
        [
            ("été", TokenKind::IdentifierOrKeyword),
            ("٣", TokenKind::NumericConstant),
            ("x", TokenKind::IdentifierOrKeyword),
            ("2", TokenKind::NumericConstant),
            ("x", TokenKind::IdentifierOrKeyword),
            ("²", TokenKind::NumericConstant),
        ]
    );
}
