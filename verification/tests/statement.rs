use loose_sqlparser::{loose_sqlparse, Options, Tokenizer};

#[test]
fn test_statement_is_empty() {
    let statements = loose_sqlparse("SELECT 1;\n\t \n;;SELECT 2").collect();
    assert_eq!(statements.len(), 4);
    assert!(!statements[0].is_empty());
    assert!(statements[1].is_empty());
    assert!(statements[2].is_empty());
    assert!(!statements[3].is_empty());
}

#[test]
fn test_split_statements() {
    let s = Tokenizer::new("SELECT 1; SELECT 2", Options::default()).unwrap().collect();
    assert_eq!(s.len(), 2);
    assert_eq!(s[0].sql(), "SELECT 1;");
    assert_eq!(s[1].sql(), "SELECT 2");
}

#[test]
fn test_comments_alone_make_an_empty_statement() {
    let statements = loose_sqlparse("-- nothing\n/* here */;").collect();
    assert_eq!(statements.len(), 1);
    assert!(statements[0].is_empty());
    assert_eq!(statements[0].sql(), "-- nothing\n/* here */;");
}

#[test]
fn test_keywords_are_those_of_the_top_level() {
    let statements =
        loose_sqlparse("INSERT INTO t1 (a, b) SELECT x, y FROM (SELECT 1 RETURNING) u2").collect();
    assert_eq!(statements[0].keywords(), ["INSERT", "INTO", "SELECT", "x", "y", "FROM"]);
    assert!(!statements[0].is_query());
}

fn is_query(sql: &str) -> bool {
    loose_sqlparse(sql).next().unwrap().is_query()
}

#[test]
fn test_is_query() {
    assert!(is_query("SELECT 1"));
    assert!(is_query("select * from t"));
    assert!(!is_query("SELECT a INTO b FROM t"));
    assert!(is_query("SHOW TABLES"));
    assert!(is_query("describe t"));
    assert!(is_query("Explain SELECT 1"));
    assert!(is_query("VALUES (1, 2)"));
    assert!(is_query("LIST @stage"));
    assert!(is_query("PRAGMA table_info(t)"));
    assert!(is_query("WITH a AS (SELECT 1) SELECT * FROM a"));
    assert!(is_query("WITH a AS (SELECT 1) DELETE FROM t RETURNING id"));
    assert!(!is_query("WITH a AS (SELECT 1) DELETE FROM t"));
    assert!(is_query("INSERT INTO t VALUES (1) RETURNING id"));
    assert!(is_query("update t set a = 1 returning a"));
    assert!(is_query("DELETE FROM t RETURNING *"));
    assert!(!is_query("INSERT INTO t VALUES (1)"));
    assert!(!is_query("UPDATE t SET a = (SELECT 1 RETURNING)"));
    assert!(!is_query("CREATE TABLE t (a INT)"));
    assert!(!is_query("/* SELECT */ ;"));
    assert!(!is_query("42"));
}

#[test]
fn test_sql_of_a_parenthesis_that_nothing_closes() {
    let statements = loose_sqlparse("SELECT (1 + 2").collect();
    assert_eq!(statements.len(), 1);
    assert_eq!(statements[0].sql(), "SELECT (1 + 2");
    assert_eq!(statements[0].tokens().as_str_array(), ["SELECT", "(", "1", "+", "2"]);
    let last = &statements[0].tokens()[2];
    assert!(last.is_fragment());
    assert_eq!(last.start.offset, 8);
    assert_eq!(last.end.offset, 13);
}
