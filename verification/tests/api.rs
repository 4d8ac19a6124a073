use loose_sqlparser::{
    loose_sqlparse, loose_sqlparse_with_options, parse, parse_with_options, Error, Options,
};

#[test]
fn test_public_api() {
    let statements = loose_sqlparse("SELECT /* one */ 1;SELECT 2").collect();
    assert_eq!(statements[0].tokens().as_str_array(), ["SELECT", "/* one */", "1", ";"]);
    assert_eq!(statements[1].tokens().as_str_array(), ["SELECT", "2"]);

    let statements = parse("SELECT /* one */ 1;SELECT 2").collect();
    assert_eq!(statements[0].tokens().as_str_array(), ["SELECT", "/* one */", "1", ";"]);
    assert_eq!(statements[1].tokens().as_str_array(), ["SELECT", "2"]);

    let options = Options { statement_delimiter: "\\".to_string() };
    let statements =
        loose_sqlparse_with_options("SELECT /* one */ 1\\SELECT 2", options).unwrap().collect();
    assert_eq!(statements[0].tokens().as_str_array(), ["SELECT", "/* one */", "1", "\\"]);
    assert_eq!(statements[1].tokens().as_str_array(), ["SELECT", "2"]);

    let options = Options { statement_delimiter: "\\".to_string() };
    let statements =
        parse_with_options("SELECT /* one */ 1\\SELECT 2", options).unwrap().collect();
    assert_eq!(statements[0].tokens().as_str_array(), ["SELECT", "/* one */", "1", "\\"]);
    assert_eq!(statements[1].tokens().as_str_array(), ["SELECT", "2"]);
}

#[test]
fn test_loose_sqlparse_with_options() {}

#[test]
fn test_default_delimiter_is_a_semicolon() {
    assert_eq!(Options::default().statement_delimiter, ";");
}

#[test]
fn test_empty_delimiter_is_refused() {
    let options = Options { statement_delimiter: String::new() };
    assert!(matches!(
        loose_sqlparse_with_options("SELECT 1", options),
        Err(Error::EmptyStatementDelimiter)
    ));
    let options = Options { statement_delimiter: String::new() };
    assert!(matches!(parse_with_options("", options), Err(Error::EmptyStatementDelimiter)));
    assert_eq!(
        Error::EmptyStatementDelimiter.message(),
        "the statement delimiter must not be empty"
    );
}

#[test]
fn test_statements_are_found_one_by_one() {
    let mut statements = loose_sqlparse("SELECT 1;\nSELECT 2;");
    let first = statements.next().unwrap();
    assert_eq!(first.sql(), "SELECT 1;");
    assert_eq!(statements.remaining_input(), "\nSELECT 2;");
    let second = statements.next().unwrap();
    assert_eq!(second.sql(), "SELECT 2;");
    assert_eq!(second.start().line, 2);
    assert_eq!(second.start().column, 1);
    assert_eq!(second.start().offset, 10);
    assert_eq!(second.end().line, 2);
    assert_eq!(second.end().column, 9);
    assert_eq!(second.end().offset, 19);
    assert!(statements.next().is_none());
    assert!(statements.next().is_none());
}

#[test]
fn test_delimiter_of_several_characters() {
    let options = Options { statement_delimiter: "GO".to_string() };
    let statements = parse_with_options("SELECT 1 GO SELECT LOGO GO", options).unwrap().collect();
    assert_eq!(statements.len(), 2);
    assert_eq!(statements[0].tokens().as_str_array(), ["SELECT", "1", "GO"]);
    assert_eq!(statements[1].tokens().as_str_array(), ["SELECT", "LOGO", "GO"]);
    assert!(statements[0].tokens()[2].is_statement_delimiter());
}

#[test]
fn test_delimiter_wins_over_operator() {
    let options = Options { statement_delimiter: "::".to_string() };
    let statements = parse_with_options("1::2", options).unwrap().collect();
    assert_eq!(statements.len(), 2);
    assert_eq!(statements[0].tokens().as_str_array(), ["1", "::"]);
    assert!(statements[0].tokens()[1].is_statement_delimiter());
    assert_eq!(statements[1].tokens().as_str_array(), ["2"]);
}
