use query_filter::ast::Value;
use query_filter::converters::sqlite::{SQLiteWhere, WhereClause};
use query_filter::converters::{propose_closest, Convert, ConvertError};

fn list_string(ss: &[&str]) -> Vec<String> {
    ss.iter().map(|s| s.to_string()).collect()
}

#[test]
pub fn empty_query() {
    let mut sqlite = SQLiteWhere::new(list_string(&["title", "tags", "year"]), true);
    assert_eq!(
        sqlite.match_keywords_with(list_string(&["tagsB"])),
        Err("Invalid column \"tagsB\"".to_string())
    );

    sqlite.match_keywords_with(list_string(&[])).unwrap();

    assert_eq!(
        sqlite.convert("should be ignored as there are no columns for match keywords"),
        Ok(WhereClause {
            where_clause: "".to_string(),
            order_by: "".to_string(),
            bindings: vec![]
        })
    );

    assert_eq!(
        sqlite.convert("sortby : year  desc sortby :tags"),
        Ok(WhereClause {
            where_clause: "".to_string(),
            order_by: "year DESC, tags".to_string(),
            bindings: vec![]
        })
    );
}

#[test]
pub fn simple_keyword() {
    let mut sqlite = SQLiteWhere::new(list_string(&["title", "tags", "year"]), true);
    sqlite
        .match_keywords_with(list_string(&["title", "tags"]))
        .unwrap();

    assert_eq!(
        sqlite.convert("Some title !~ BadTitle Keyword sortby:tags desc"),
        Ok(WhereClause {
            where_clause: "(title LIKE ? OR tags LIKE ?) AND (title NOT LIKE ?)".to_string(),
            order_by: "tags DESC".to_string(),
            bindings: vec![
                (
                    "title".to_string(),
                    Value::String("%Some%Keyword%".to_string())
                ),
                (
                    "tags".to_string(),
                    Value::String("%Some%Keyword%".to_string())
                ),
                ("title".to_string(), Value::String("BadTitle".to_string())),
            ]
        })
    );

    assert_eq!(
        sqlite.convert(r#" title ~"nar"  "#),
        Ok(WhereClause {
            where_clause: "(title LIKE ?)".to_string(),
            order_by: "".to_string(),
            bindings: vec![("title".to_string(), Value::String("nar".to_string()))]
        })
    );

    assert_eq!(
        sqlite.convert("Hayao sortby:title sortby:tags rand year>=2000 Miyazaki sortby:year asc"),
        Ok(WhereClause {
            where_clause: "(title LIKE ? OR tags LIKE ?) AND (year >= ?)".to_string(),
            order_by: "title, tags, RANDOM(), year ASC".to_string(),
            bindings: vec![
                (
                    "title".to_string(),
                    Value::String("%Hayao%Miyazaki%".to_string())
                ),
                (
                    "tags".to_string(),
                    Value::String("%Hayao%Miyazaki%".to_string())
                ),
                ("year".to_string(), Value::Number("2000".to_string()))
            ]
        })
    );
}

#[test]
fn special_values() {
    let mut sqlite = SQLiteWhere::new(list_string(&["title", "tags", "year"]), true);
    sqlite
        .match_keywords_with(list_string(&["title", "tags"]))
        .unwrap();

    assert_eq!(
        sqlite.convert("title ~ @null"),
        Err(ConvertError {
            error: "null comparison expects = or !=, got \"~\" instead".to_string(),
            start: 6,
            end: 7
        })
    );

    assert_eq!(
        sqlite.convert("title = @null tags != @null sortby: @rand asc sortby: title"),
        Ok(WhereClause {
            where_clause: "(title IS NULL AND tags IS NOT NULL)".to_string(),
            order_by: "RANDOM(), title".to_string(),
            bindings: vec![]
        })
    );
}

#[test]
fn single_comparison() {
    let sqlite = SQLiteWhere::new(list_string(&["stars"]), true);
    assert_eq!(
        sqlite.convert("stars >= 5"),
        Ok(WhereClause {
            where_clause: "(stars >= ?)".to_string(),
            order_by: "".to_string(),
            bindings: vec![("stars".to_string(), Value::Number("5".to_string()))]
        })
    );
}

#[test]
fn invalid_column_suggests_the_closest() {
    let sqlite = SQLiteWhere::new(list_string(&["title", "tags", "year"]), true);
    assert_eq!(
        sqlite.convert("x tagsB = 1"),
        Err(ConvertError {
            error: "Invalid column \"tagsB\": did you mean \"tags\"?".to_string(),
            start: 2,
            end: 7
        })
    );
    assert_eq!(
        sqlite.convert("sortby:zzzzzzzz"),
        Err(ConvertError {
            error: "Invalid column \"zzzzzzzz\"".to_string(),
            start: 7,
            end: 15
        })
    );
}

#[test]
fn first_error_in_term_order_wins() {
    let sqlite = SQLiteWhere::new(list_string(&["title"]), true);
    assert_eq!(
        sqlite.convert("title < @null nope = 1"),
        Err(ConvertError {
            error: "null comparison expects = or !=, got \"<\" instead".to_string(),
            start: 6,
            end: 7
        })
    );
}

#[test]
fn case_is_ignored_only_when_asked() {
    let loose = SQLiteWhere::new(list_string(&["Title"]), true);
    assert_eq!(
        loose.convert("TITLE = x"),
        Ok(WhereClause {
            where_clause: "(TITLE = ?)".to_string(),
            order_by: "".to_string(),
            bindings: vec![("TITLE".to_string(), Value::String("x".to_string()))]
        })
    );
    let strict = SQLiteWhere::new(list_string(&["Title"]), false);
    assert_eq!(
        strict.convert("TITLE = x"),
        Err(ConvertError {
            error: "Invalid column \"TITLE\"".to_string(),
            start: 0,
            end: 5
        })
    );
    assert_eq!(
        strict.convert("Title != x sortby:Title,rand"),
        Ok(WhereClause {
            where_clause: "(\"Title\" != ?)".to_string(),
            order_by: "\"Title\", RANDOM()".to_string(),
            bindings: vec![("Title".to_string(), Value::String("x".to_string()))]
        })
    );
}

#[test]
fn keyword_columns_are_quoted_when_case_matters() {
    let mut strict = SQLiteWhere::new(list_string(&["a", "b"]), false);
    strict.match_keywords_with(list_string(&["b"])).unwrap();
    assert_eq!(
        strict.convert("one two"),
        Ok(WhereClause {
            where_clause: "(\"b\" LIKE ?)".to_string(),
            order_by: "".to_string(),
            bindings: vec![("b".to_string(), Value::String("%one%two%".to_string()))]
        })
    );
}

#[test]
fn unfinished_number_is_bound_as_text() {
    let sqlite = SQLiteWhere::new(list_string(&["year"]), true);
    assert_eq!(
        sqlite.convert("year = 2e"),
        Ok(WhereClause {
            where_clause: "(year = ?)".to_string(),
            order_by: "".to_string(),
            bindings: vec![("year".to_string(), Value::String("2e".to_string()))]
        })
    );
}

#[test]
fn null_comparison_takes_no_binding() {
    let sqlite = SQLiteWhere::new(list_string(&["a", "b"]), true);
    let with = sqlite.convert("a = 1 b != @null a < 2").unwrap();
    let without = sqlite.convert("a = 1 a < 2").unwrap();
    assert_eq!(with.where_clause, "(a = ? AND b IS NOT NULL AND a < ?)");
    assert_eq!(with.bindings, without.bindings);
}

#[test]
fn failed_keyword_setup_keeps_the_previous_columns() {
    let mut sqlite = SQLiteWhere::new(list_string(&["a", "b"]), true);
    sqlite.match_keywords_with(list_string(&["a"])).unwrap();
    assert!(sqlite.match_keywords_with(list_string(&["b", "c"])).is_err());
    assert_eq!(
        sqlite.convert("k").map(|w| w.where_clause),
        Ok("(a LIKE ?)".to_string())
    );
}

#[test]
fn closest_is_the_first_within_distance() {
    let items = list_string(&["alpha", "beta", "bet"]);
    assert_eq!(propose_closest(&items, "bett", None), Some("beta".to_string()));
    assert_eq!(propose_closest(&items, "bett", Some(0)), None);
    assert_eq!(propose_closest(&items, "kitten", Some(3)), None);
}

fn through_backend<C: Convert<WhereClause, String>>(backend: &C, query: &str) -> Result<WhereClause, ConvertError<String>> {
    backend.convert(query)
}

#[test]
fn backend_interface_gives_the_same_result() {
    let sqlite = SQLiteWhere::new(list_string(&["year"]), true);
    assert_eq!(through_backend(&sqlite, "year < 3"), sqlite.convert("year < 3"));
    assert_eq!(
        through_backend(&sqlite, "year < 3").map(|w| w.where_clause),
        Ok("(year < ?)".to_string())
    );
}
