use cdoc::{Filter, Query, QueryError, Segment, Select};

fn field(name: &str) -> Segment {
    Segment::Field(name.to_string())
}

fn leaf(name: &str) -> Select {
    Select::new(field(name), None, vec![], vec![])
}

#[test]
fn parse_nested_structure() {
    let q = Query::parse("{ users { name, age } }").unwrap();
    assert_eq!(
        q,
        Query::new(vec![Select::new(
            field("users"),
            None,
            vec![],
            vec![leaf("name"), leaf("age")],
        )])
    );
}

#[test]
fn parse_deeply_nested_structure() {
    let q = Query::parse("{ users { profile { avatar { url } } } }").unwrap();
    assert_eq!(
        q,
        Query::new(vec![Select::new(
            field("users"),
            None,
            vec![],
            vec![Select::new(
                field("profile"),
                None,
                vec![],
                vec![Select::new(
                    field("avatar"),
                    None,
                    vec![],
                    vec![leaf("url")],
                )],
            )],
        )])
    );
}

#[test]
fn parse_bare_ident_selectors() {
    let q = Query::parse("{ name, age, active }").unwrap();
    assert_eq!(
        q,
        Query::new(vec![leaf("name"), leaf("age"), leaf("active")])
    );
}

#[test]
fn parse_quoted_string_selectors() {
    let q = Query::parse(r#"{ "first name", "last name" }"#).unwrap();
    assert_eq!(q, Query::new(vec![leaf("first name"), leaf("last name")]));
}

#[test]
fn parse_mixed_ident_and_quoted_selectors() {
    let q = Query::parse(r#"{ name, "home address" }"#).unwrap();
    assert_eq!(q, Query::new(vec![leaf("name"), leaf("home address")]));
}

#[test]
fn parse_alias_with_bare_idents() {
    let q = Query::parse("{ name as first_name, age }").unwrap();
    assert_eq!(
        q,
        Query::new(vec![
            Select::new(field("name"), Some(field("first_name")), vec![], vec![]),
            leaf("age"),
        ])
    );
}

#[test]
fn parse_alias_with_quoted_strings() {
    let q = Query::parse(r#"{ "field" as "alias" }"#).unwrap();
    assert_eq!(
        q,
        Query::new(vec![Select::new(
            field("field"),
            Some(field("alias")),
            vec![],
            vec![],
        )])
    );
}

#[test]
fn parse_alias_mixed_ident_and_quoted() {
    let q = Query::parse(r#"{ name as "display name" }"#).unwrap();
    assert_eq!(
        q,
        Query::new(vec![Select::new(
            field("name"),
            Some(field("display name")),
            vec![],
            vec![],
        )])
    );
}

#[test]
fn parse_filter_skip() {
    let q = Query::parse("{ items(skip: 5) }").unwrap();
    assert_eq!(
        q,
        Query::new(vec![Select::new(
            field("items"),
            None,
            vec![Filter::Skip(5)],
            vec![],
        )])
    );
}

#[test]
fn parse_filter_take() {
    let q = Query::parse("{ items(take: 10) }").unwrap();
    assert_eq!(
        q,
        Query::new(vec![Select::new(
            field("items"),
            None,
            vec![Filter::Take(10)],
            vec![],
        )])
    );
}

#[test]
fn parse_filter_after() {
    let q = Query::parse(r#"{ items(after: "cursor_abc") }"#).unwrap();
    assert_eq!(
        q,
        Query::new(vec![Select::new(
            field("items"),
            None,
            vec![Filter::After(field("cursor_abc"))],
            vec![],
        )])
    );
}

#[test]
fn parse_filter_before() {
    let q = Query::parse(r#"{ items(before: "cursor_xyz") }"#).unwrap();
    assert_eq!(
        q,
        Query::new(vec![Select::new(
            field("items"),
            None,
            vec![Filter::Before(field("cursor_xyz"))],
            vec![],
        )])
    );
}

#[test]
fn parse_multiple_filters() {
    let q =
        Query::parse(r#"{ items(skip: 2, take: 5, after: "start", before: "end") }"#).unwrap();
    assert_eq!(
        q,
        Query::new(vec![Select::new(
            field("items"),
            None,
            vec![
                Filter::Skip(2),
                Filter::Take(5),
                Filter::After(field("start")),
                Filter::Before(field("end")),
            ],
            vec![],
        )])
    );
}

#[test]
fn parse_filters_with_subselects() {
    let q = Query::parse("{ friends(skip: 1, take: 10) { name } }").unwrap();
    assert_eq!(
        q,
        Query::new(vec![Select::new(
            field("friends"),
            None,
            vec![Filter::Skip(1), Filter::Take(10)],
            vec![leaf("name")],
        )])
    );
}

#[test]
fn parse_alias_filters_and_subselects_combined() {
    let q = Query::parse(
        "{ users { name as first_name, age, friends(skip: 1, take: 10) { name } } }",
    )
    .unwrap();
    assert_eq!(
        q,
        Query::new(vec![Select::new(
            field("users"),
            None,
            vec![],
            vec![
                Select::new(field("name"), Some(field("first_name")), vec![], vec![]),
                leaf("age"),
                Select::new(
                    field("friends"),
                    None,
                    vec![Filter::Skip(1), Filter::Take(10)],
                    vec![leaf("name")],
                ),
            ],
        )])
    );
}

#[test]
fn parse_trailing_comma_is_allowed() {
    let q = Query::parse("{ name, age, }").unwrap();
    assert_eq!(q, Query::new(vec![leaf("name"), leaf("age")]));
}

#[test]
fn parse_error_unexpected_char() {
    let err = Query::parse("{ @ }").unwrap_err();
    assert!(matches!(err, QueryError::UnexpectedChar('@', _)));
}

#[test]
fn parse_error_unexpected_end() {
    let err = Query::parse("{ name").unwrap_err();
    assert!(matches!(err, QueryError::UnexpectedEnd));
}

#[test]
fn parse_error_unknown_filter() {
    let err = Query::parse("{ items(limit: 5) }").unwrap_err();
    assert!(matches!(err, QueryError::UnknownFilter(kw, _) if kw == "limit"));
}

#[test]
fn parse_error_missing_opening_brace() {
    let err = Query::parse("name, age").unwrap_err();
    assert!(matches!(err, QueryError::UnexpectedChar('n', 0)));
}

#[test]
fn parse_error_trailing_content() {
    let err = Query::parse("{ name } extra").unwrap_err();
    assert!(matches!(err, QueryError::UnexpectedChar('e', _)));
}

#[test]
fn parse_error_positions() {
    assert_eq!(Query::parse("{ @ }").unwrap_err(), QueryError::UnexpectedChar('@', 2));
    assert_eq!(Query::parse("{ name } extra").unwrap_err(), QueryError::UnexpectedChar('e', 9));
    assert_eq!(
        Query::parse("{ items(limit: 5) }").unwrap_err(),
        QueryError::UnknownFilter("limit".to_string(), 8)
    );
    assert_eq!(Query::parse("").unwrap_err(), QueryError::UnexpectedEnd);
}

#[test]
fn parse_empty_selection_set() {
    let q = Query::parse("{}").unwrap();
    assert_eq!(q, Query::new(vec![]));
    assert!(q.selects().is_empty());
}

#[test]
fn select_accessors() {
    let q = Query::parse("{ a as b(skip: 3) { c } }").unwrap();
    let s = &q.selects()[0];
    assert_eq!(s.name(), &field("a"));
    assert_eq!(s.alias(), &Some(field("b")));
    assert_eq!(s.filters(), &vec![Filter::Skip(3)]);
    assert_eq!(s.subselects(), &vec![leaf("c")]);
}
