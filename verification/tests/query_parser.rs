use coursework::dataset::Value;
use coursework::query::{Aggregation, Condition, Query};
use coursework::query_parser::{parse_condition, parse_query_from_string};

fn eq(col: &str, v: &str) -> Condition {
    Condition::Equal(col.to_string(), Value::String(v.to_string()))
}

#[test]
fn parse_simple_equality() {
    assert_eq!(parse_condition("name == \"bob\""), eq("name", "bob"));
    assert_eq!(parse_condition("  ((name == \"bob\"))  "), eq("name", "bob"));
    assert_eq!(parse_condition("name==bob"), eq("name", "bob"));
}

#[test]
fn parse_quotes_are_removed_inside_the_value() {
    assert_eq!(parse_condition("title == \"a\"b\"\""), eq("title", "ab"));
}

#[test]
fn parse_negation() {
    assert_eq!(parse_condition("!(a == \"x\")"), Condition::Not(Box::new(eq("a", "x"))));
    assert_eq!(parse_condition("!!a == \"x\""), Condition::Not(Box::new(eq("a", "x"))));
}

#[test]
fn parse_or_joins_from_the_left() {
    let c = parse_condition("a == \"1\" OR b == \"2\" OR c == \"3\"");
    let expected = Condition::Or(
        Box::new(Condition::Or(Box::new(eq("a", "1")), Box::new(eq("b", "2")))),
        Box::new(eq("c", "3")),
    );
    assert_eq!(c, expected);
}

#[test]
fn parse_or_is_split_before_and() {
    let c = parse_condition("a == \"1\" AND b == \"2\" OR c == \"3\"");
    let expected = Condition::Or(
        Box::new(Condition::And(Box::new(eq("a", "1")), Box::new(eq("b", "2")))),
        Box::new(eq("c", "3")),
    );
    assert_eq!(c, expected);
}

#[test]
fn parse_full_queries() {
    let q = parse_query_from_string("FILTER (city == \"boston\") GROUP BY name COUNT age".to_string());
    assert_eq!(q, Query::new(eq("city", "boston"), "name".to_string(), Aggregation::Count("age".to_string())));

    let q = parse_query_from_string("  FILTER !(a == \"x\")   GROUP BY  b   SUM c".to_string());
    assert_eq!(
        q,
        Query::new(Condition::Not(Box::new(eq("a", "x"))), "b".to_string(), Aggregation::Sum("c".to_string()))
    );

    let q = parse_query_from_string("FILTER (a == \"1\" AND b == \"2\") GROUP BY g AVERAGE v".to_string());
    assert_eq!(
        q,
        Query::new(
            Condition::And(Box::new(eq("a", "1")), Box::new(eq("b", "2"))),
            "g".to_string(),
            Aggregation::Average("v".to_string())
        )
    );
}

#[test]
fn parse_query_ignores_words_after_the_aggregated_column() {
    let q = parse_query_from_string("FILTER x == \"1\" GROUP BY g COUNT v extra words".to_string());
    assert_eq!(q, Query::new(eq("x", "1"), "g".to_string(), Aggregation::Count("v".to_string())));
}
