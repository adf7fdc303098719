use rsbts::query::{
    compile, compile_terms, parse, parse_on_day, terms_to_sql, to_sql, FieldOp, QueryTerm, SortDirective,
};

#[test]
fn test_simple_query() {
    let sql = to_sql("artist:beatles").unwrap();
    assert!(sql.contains("artist LIKE '%beatles%'"));
}

#[test]
fn test_exact_match() {
    let sql = to_sql("title:=Help!").unwrap();
    assert!(sql.contains("title = 'Help!'"));
}

#[test]
fn test_range() {
    let sql = to_sql("year:1960..1969").unwrap();
    assert!(sql.contains("year BETWEEN '1960' AND '1969'"));
}

#[test]
fn test_negation() {
    let sql = to_sql("^genre:jazz").unwrap();
    assert!(sql.contains("NOT (genre LIKE '%jazz%')"));
}

#[test]
fn test_parse_fulltext() {
    let terms = parse("beatles").unwrap();
    assert_eq!(terms.len(), 1);
    assert!(matches!(&terms[0], QueryTerm::FullText(s) if s == "beatles"));
}

#[test]
fn test_parse_field() {
    let terms = parse("artist:beatles").unwrap();
    assert_eq!(terms.len(), 1);
    assert!(matches!(
        &terms[0],
        QueryTerm::Field {
            negated: false,
            name,
            op: FieldOp::Substring(v)
        } if name == "artist" && v == "beatles"
    ));
}

#[test]
fn test_parse_sort() {
    let terms = parse("year+").unwrap();
    assert_eq!(terms.len(), 1);
    assert!(matches!(
        &terms[0],
        QueryTerm::Sort {
            field,
            ascending: true
        } if field == "year"
    ));
}

#[test]
fn exact_term_is_one_field_clause() {
    let terms = parse("title:=Help!").unwrap();
    assert_eq!(
        terms,
        vec![QueryTerm::Field {
            negated: false,
            name: "title".to_string(),
            op: FieldOp::Exact("Help!".to_string())
        }]
    );
}

#[test]
fn range_term_has_both_bounds() {
    let terms = parse("year:1960..1969").unwrap();
    assert_eq!(
        terms,
        vec![QueryTerm::Field {
            negated: false,
            name: "year".to_string(),
            op: FieldOp::Range {
                start: Some("1960".to_string()),
                end: Some("1969".to_string())
            }
        }]
    );
}

#[test]
fn open_ranges_and_their_sql() {
    let terms = parse("year:..1969 year:1960.. year:..").unwrap();
    assert_eq!(
        terms[0],
        QueryTerm::Field {
            negated: false,
            name: "year".to_string(),
            op: FieldOp::Range { start: None, end: Some("1969".to_string()) }
        }
    );
    let sql = terms_to_sql(&terms).unwrap();
    assert_eq!(
        sql,
        "SELECT * FROM items WHERE year <= '1969' AND year >= '1960' AND year IS NOT NULL ORDER BY artist, album, disc, track"
    );
}

#[test]
fn value_with_two_ranges_is_a_substring() {
    let terms = parse("year:1..2..3").unwrap();
    assert!(matches!(
        &terms[0],
        QueryTerm::Field { op: FieldOp::Substring(v), .. } if v == "1..2..3"
    ));
}

#[test]
fn negated_term_keeps_its_operation() {
    let terms = parse("^genre:jazz").unwrap();
    assert_eq!(
        terms,
        vec![QueryTerm::Field {
            negated: true,
            name: "genre".to_string(),
            op: FieldOp::Substring("jazz".to_string())
        }]
    );
}

#[test]
fn sort_only_query_has_no_filter() {
    let terms = parse("year+").unwrap();
    let sql = terms_to_sql(&terms).unwrap();
    assert_eq!(sql, "SELECT * FROM items  ORDER BY year ASC");
}

#[test]
fn fulltext_and_descending_sort() {
    let terms = parse("beatles year-").unwrap();
    assert_eq!(
        terms,
        vec![
            QueryTerm::FullText("beatles".to_string()),
            QueryTerm::Sort { field: "year".to_string(), ascending: false }
        ]
    );
    let sql = terms_to_sql(&terms).unwrap();
    assert_eq!(
        sql,
        "SELECT * FROM items WHERE id IN (SELECT rowid FROM items_fts WHERE items_fts MATCH 'beatles') ORDER BY year DESC"
    );
}

#[test]
fn empty_query_uses_default_order() {
    let terms = parse("  \t ").unwrap();
    assert!(terms.is_empty());
    let sql = terms_to_sql(&terms).unwrap();
    assert_eq!(sql, "SELECT * FROM items  ORDER BY artist, album, disc, track");
}

#[test]
fn pattern_becomes_glob() {
    let sql = to_sql("genre::^ro.*c.$").unwrap();
    assert!(sql.contains("genre GLOB 'ro*c?'"));
}

#[test]
fn quotes_are_doubled_in_every_literal() {
    let sql = to_sql("title:it's year:a'..b' x:=o'k").unwrap();
    assert!(sql.contains("title LIKE '%it''s%'"));
    assert!(sql.contains("year BETWEEN 'a''' AND 'b'''"));
    assert!(sql.contains("x = 'o''k'"));
}

#[test]
fn several_filters_and_sorts_keep_their_order() {
    let sql = to_sql("artist:a album:b year- title+").unwrap();
    assert_eq!(
        sql,
        "SELECT * FROM items WHERE artist LIKE '%a%' AND album LIKE '%b%' ORDER BY year DESC, title ASC"
    );
}

#[test]
fn relative_date_counts_back_from_the_given_day() {
    // Day 719163 is 1970-01-01.
    let terms = parse_on_day("added:-2w", 719_163).unwrap();
    assert_eq!(
        terms,
        vec![QueryTerm::Field {
            negated: false,
            name: "added".to_string(),
            op: FieldOp::RelativeDate("1969-12-18".to_string())
        }]
    );
    let y = parse_on_day("added:-1y", 719_163).unwrap();
    assert!(matches!(&y[0], QueryTerm::Field { op: FieldOp::RelativeDate(d), .. } if d == "1969-01-01"));
    let m = parse_on_day("added:-1m", 719_163).unwrap();
    assert!(matches!(&m[0], QueryTerm::Field { op: FieldOp::RelativeDate(d), .. } if d == "1969-12-02"));
    let d = parse_on_day("added:-3d", 719_163).unwrap();
    assert!(matches!(&d[0], QueryTerm::Field { op: FieldOp::RelativeDate(d), .. } if d == "1969-12-29"));
}

#[test]
fn malformed_relative_date_is_a_substring() {
    for q in ["added:-2x", "added:-w", "added:-99999999999999999999d", "other:-2w"] {
        let terms = parse_on_day(q, 719_163).unwrap();
        assert!(matches!(&terms[0], QueryTerm::Field { op: FieldOp::Substring(_), .. }), "{q}");
    }
}

#[test]
fn relative_date_today_uses_the_clock() {
    let terms = parse("added:-0d").unwrap();
    assert!(matches!(&terms[0], QueryTerm::Field { op: FieldOp::RelativeDate(d), .. } if d.len() == 10));
}

#[test]
fn unknown_fields_pass_through() {
    let terms = parse("mood:happy").unwrap();
    assert!(matches!(&terms[0], QueryTerm::Field { name, .. } if name == "mood"));
}

#[test]
fn first_colon_splits_field_and_value() {
    let terms = parse("a:b:c").unwrap();
    assert_eq!(
        terms,
        vec![QueryTerm::Field {
            negated: false,
            name: "a".to_string(),
            op: FieldOp::Substring("b:c".to_string())
        }]
    );
}

fn directive(field: &str, ascending: bool) -> SortDirective {
    SortDirective { field: field.to_string(), ascending }
}

#[test]
fn compiled_sort_only_query() {
    let c = compile("year+").unwrap();
    assert!(c.clauses.is_empty());
    assert_eq!(c.sort, vec![directive("year", true)]);
}

#[test]
fn compiled_query_uses_default_order() {
    let c = compile("artist:beatles").unwrap();
    assert_eq!(
        c.clauses,
        vec![QueryTerm::Field {
            negated: false,
            name: "artist".to_string(),
            op: FieldOp::Substring("beatles".to_string())
        }]
    );
    assert_eq!(
        c.sort,
        vec![
            directive("artist", true),
            directive("album", true),
            directive("disc", true),
            directive("track", true)
        ]
    );
}

#[test]
fn compiled_fulltext_and_sort_keep_order() {
    let terms = parse("a- beatles b+ ^x:y").unwrap();
    let c = compile_terms(terms);
    assert_eq!(
        c.clauses,
        vec![
            QueryTerm::FullText("beatles".to_string()),
            QueryTerm::Field {
                negated: true,
                name: "x".to_string(),
                op: FieldOp::Substring("y".to_string())
            }
        ]
    );
    assert_eq!(c.sort, vec![directive("a", false), directive("b", true)]);
}
