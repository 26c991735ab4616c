use query_filter::ast::{Operator, Order, SaveRepr, Term, Value, WithPos};
use query_filter::parser::parse_query;

#[test]
pub fn simple() {
    assert_eq!(parse_query(r#""#), Ok(vec![]));

    assert_eq!(
        parse_query(r#" keyword  "#),
        Ok(vec![Term::Keyword {
            keyword: WithPos {
                value: "keyword".to_string(),
                start: 1,
                end: 8
            }
        }])
    );

    assert_eq!(
        parse_query(r#"  _column1234 !~ "\"Hello\" world" "#),
        Ok(vec![Term::Operation {
            column: WithPos {
                value: "_column1234".to_string(),
                start: 2,
                end: 13
            },
            operator: WithPos {
                value: Operator::NotContains,
                start: 14,
                end: 16
            },
            value: WithPos {
                value: Value::String("\"Hello\" world".to_string()),
                start: 17,
                end: 34
            }
        }])
    );
}

#[test]
pub fn simple_repr() {
    assert_eq!(parse_query("").map(|ts| ts.save_repr()), Ok("".to_string()));

    assert_eq!(
        parse_query(r#" stars >= 5"#).map(|v| v.save_repr()),
        Ok("stars >= 5".to_string())
    );

    assert_eq!(
        parse_query(
            r#" hello
        world ,, one two"#
        )
        .map(|ts| ts.save_repr()),
        Ok("hello world ,, one two".to_string())
    );

    assert_eq!(
        parse_query(r#" _column1234 !~ "\"Hello\" world" "#).map(|ts| ts.save_repr()),
        Ok("_column1234 !~ \"\\\"Hello\\\" world\"".to_string())
    );
}

#[test]
pub fn query_samples() {
    assert_eq!(
        parse_query(r#"A  simple sequence of keywords"#).map(|ts| ts.save_repr()),
        Ok("A simple sequence of keywords".to_string())
    );

    assert_eq!(
        parse_query(
            r#"Hayao sortby:title title ~ "%one two%" release >= 2000  Miyazaki sortby: release  , desc"#
        )
        .map(|ts| ts.save_repr()),
        Ok("Hayao sortby:title title ~ \"%one two%\" release >= 2000 Miyazaki sortby:release,desc".to_string())
    );

    assert_eq!(
        parse_query(
            r#"
            title  ~ "%猫%
            物語%ep%"
            sortby : foo
            stars > 5
            sortby : tag,asc
            stars <= 5
            sortby:stars
        "#
        )
        .map(|ts| ts.save_repr()),
        Ok("title ~ \"%猫%\\n            物語%ep%\" sortby:foo stars > 5 sortby:tag,asc stars <= 5 sortby:stars".to_string())
    );
}

#[test]
pub fn sortby_expansion() {
    assert_eq!(
        parse_query(r#" sOrtBy:foo , asc"#).map(|ts| ts.save_repr()),
        Ok("sortby:foo,asc".to_string())
    );
    assert_eq!(
        parse_query(r#" sOrtBy : foo , keyword"#).map(|ts| ts.save_repr()),
        Ok("sortby:foo , keyword".to_string())
    );
}

#[test]
fn empty_and_blank_queries_have_no_terms() {
    assert_eq!(parse_query("   \n\t "), Ok(vec![]));
}

#[test]
fn trailing_text_becomes_one_keyword() {
    assert_eq!(
        parse_query("a ,b c"),
        Ok(vec![
            Term::Keyword {
                keyword: WithPos { value: "a".to_string(), start: 0, end: 1 }
            },
            Term::Keyword {
                keyword: WithPos { value: ",b c".to_string(), start: 2, end: 6 }
            },
        ])
    );
}

#[test]
fn spans_are_byte_offsets() {
    assert_eq!(
        parse_query("猫 x"),
        Ok(vec![
            Term::Keyword {
                keyword: WithPos { value: "猫".to_string(), start: 0, end: 3 }
            },
            Term::Keyword {
                keyword: WithPos { value: "x".to_string(), start: 4, end: 5 }
            },
        ])
    );
}

#[test]
fn numbers_keep_their_literal() {
    let terms = parse_query("year >= -1.5e3 x").unwrap();
    assert_eq!(
        terms[0],
        Term::Operation {
            column: WithPos { value: "year".to_string(), start: 0, end: 4 },
            operator: WithPos { value: Operator::Gte, start: 5, end: 7 },
            value: WithPos { value: Value::Number("-1.5e3".to_string()), start: 8, end: 14 },
        }
    );
    assert_eq!(terms.len(), 2);
    assert_eq!(terms.save_repr(), "year >= -1.5e3 x");
    assert_eq!(
        parse_query("x = nan").unwrap()[0],
        Term::Operation {
            column: WithPos { value: "x".to_string(), start: 0, end: 1 },
            operator: WithPos { value: Operator::Eq, start: 2, end: 3 },
            value: WithPos { value: Value::Number("nan".to_string()), start: 4, end: 7 },
        }
    );
}

fn value_of(query: &str) -> Value {
    let terms = parse_query(query).unwrap();
    assert_eq!(terms.len(), 1);
    match &terms[0] {
        Term::Operation { value, .. } => value.value.clone(),
        other => panic!("not a comparison: {:?}", other),
    }
}

#[test]
fn a_value_is_the_whole_token() {
    assert_eq!(value_of("x = 5abc"), Value::String("5abc".to_string()));
    assert_eq!(value_of("name = nancy"), Value::String("nancy".to_string()));
    assert_eq!(value_of("status = information"), Value::String("information".to_string()));
    assert_eq!(value_of("x = 5"), Value::Number("5".to_string()));
}

#[test]
fn exponent_without_digits_is_text() {
    assert_eq!(value_of("x = 2e"), Value::String("2e".to_string()));
    assert_eq!(value_of("year = 2E+x"), Value::String("2E+x".to_string()));
}

#[test]
fn any_white_space_separates_terms() {
    assert_eq!(
        parse_query("x\u{a0}= 5"),
        Ok(vec![Term::Operation {
            column: WithPos { value: "x".to_string(), start: 0, end: 1 },
            operator: WithPos { value: Operator::Eq, start: 3, end: 4 },
            value: WithPos { value: Value::Number("5".to_string()), start: 5, end: 6 },
        }])
    );
}

#[test]
fn sort_orders_are_read_in_any_case() {
    let terms = parse_query("sortby:a DESC sortby:b,Rand").unwrap();
    assert_eq!(
        terms,
        vec![
            Term::SortBy {
                column: WithPos { value: "a".to_string(), start: 7, end: 8 },
                order: Some(WithPos { value: Order::DESC, start: 9, end: 13 }),
            },
            Term::SortBy {
                column: WithPos { value: "b".to_string(), start: 21, end: 22 },
                order: Some(WithPos { value: Order::RANDOM, start: 23, end: 27 }),
            },
        ]
    );
    assert_eq!(terms.save_repr(), "sortby:a,desc sortby:b,rand");
}

#[test]
fn reparsing_the_serialization_keeps_the_terms() {
    let first = parse_query(" a  x != \"q\\\\\" SORTBY: b , asc").unwrap();
    let text = first.save_repr();
    assert_eq!(text, "a x != \"q\\\\\" sortby:b,asc");
    let second = parse_query(&text).unwrap();
    assert_eq!(second.save_repr(), text);
    assert_eq!(second.len(), first.len());
}

#[test]
fn transfer_keeps_the_span() {
    let w = WithPos { value: "5".to_string(), start: 3, end: 4 };
    let v = w.transfer(Value::String(w.value.clone()));
    assert_eq!(v, WithPos { value: Value::String("5".to_string()), start: 3, end: 4 });
}

#[test]
fn round_trip_with_other_white_space() {
    let first = parse_query("x\u{a0}= 5\u{2003}y").unwrap();
    let text = first.save_repr();
    assert_eq!(text, "x = 5 y");
    let second = parse_query(&text).unwrap();
    assert_eq!(second.save_repr(), text);
    assert_eq!(second.len(), first.len());
}
