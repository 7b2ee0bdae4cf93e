use cleansweep_core::json::JsonValue;
use cleansweep_core::model::TransformError;
use cleansweep_core::tokenize::Token;
use cleansweep_core::transformer::Transformer;

fn s(v: &str) -> JsonValue {
    JsonValue::Str(v.to_string())
}

fn n(v: i64) -> JsonValue {
    JsonValue::Int(v)
}

fn tok(path: &str, value: JsonValue) -> Token {
    Token { path: path.to_string(), value }
}

#[test]
fn exact_search_collects_all_matches() {
    let tokens = vec![tok("$.a", n(0)), tok("$.b", n(1)), tok("$.b", n(2)), tok("$.c", n(3))];
    let r = Transformer::token_search(&tokens, "$.b", false).unwrap();
    assert_eq!(r, Some(vec![n(1), n(2)]));
}

#[test]
fn exact_search_first_stops_at_the_first_match() {
    let tokens = vec![tok("$.b", n(1)), tok("$.b", n(2))];
    let r = Transformer::token_search(&tokens, "$.b", true).unwrap();
    assert_eq!(r, Some(vec![n(1)]));
}

#[test]
fn no_match_is_distinct_from_an_empty_result() {
    let tokens = vec![tok("$.a", n(0))];
    let r = Transformer::token_search(&tokens, "$.z", false).unwrap();
    assert_eq!(r, None);
}

#[test]
fn wildcard_search_returns_values_in_index_order() {
    let tokens = vec![tok("$.items.0.name", s("a")), tok("$.items.1.name", s("b"))];
    let r = Transformer::token_search(&tokens, "$.items[*].name", false).unwrap();
    assert_eq!(r, Some(vec![s("a"), s("b")]));
}

#[test]
fn wildcard_needs_a_numeric_segment() {
    let tokens = vec![tok("$.items.x.name", s("a"))];
    let r = Transformer::token_search(&tokens, "$.items[*].name", false).unwrap();
    assert_eq!(r, None);
}

#[test]
fn marker_not_followed_by_a_dot_is_a_configuration_error() {
    let tokens = vec![tok("$.a", n(0))];
    let err = Transformer::token_search(&tokens, "$.a[*]x", false).unwrap_err();
    assert_eq!(
        err,
        TransformError::Configuration("invalid path expression: $.a[*]x".to_string())
    );
    assert!(err.is_configuration());
}

#[test]
fn range_of_is_the_equal_run_and_nothing_else() {
    let tokens = vec![tok("$.a", n(0)), tok("$.b", n(1)), tok("$.b", n(2)), tok("$.c", n(3))];
    let run = Transformer::reduce_tokens(&tokens, "$.b");
    assert_eq!(run, vec![tok("$.b", n(1)), tok("$.b", n(2))]);
}

#[test]
fn range_of_without_matches_is_empty() {
    let tokens = vec![tok("$.a", n(0)), tok("$.c", n(3))];
    let run = Transformer::reduce_tokens(&tokens, "$.b");
    assert_eq!(run, vec![]);
}

#[test]
fn max_index_bound_is_the_maximum_observed_index() {
    let matches = vec![tok("$.items.0.name", s("a")), tok("$.items.2.name", s("b"))];
    let bound = Transformer::get_max_indexes(&matches).unwrap();
    assert_eq!(bound, "2".to_string());
}

#[test]
fn max_index_bound_compares_numerically() {
    let matches = vec![tok("$.items.10.name", s("a")), tok("$.items.9.name", s("b"))];
    let bound = Transformer::get_max_indexes(&matches).unwrap();
    assert_eq!(bound, "10".to_string());
}

#[test]
fn max_index_bound_covers_each_position() {
    let matches = vec![tok("$.a.1.b.4", n(0)), tok("$.a.3.b.2", n(0))];
    let bound = Transformer::get_max_indexes(&matches).unwrap();
    assert_eq!(bound, "3|4".to_string());
}

#[test]
fn enumeration_covers_unmatched_indexes_with_nulls() {
    let tokens = vec![tok("$.items.0.name", s("a")), tok("$.items.2.name", s("b"))];
    let r = Transformer::array_search(&tokens, "$.items[*].name", "2").unwrap();
    assert_eq!(r, vec![Some(s("a")), None, Some(s("b"))]);
}

#[test]
fn nested_wildcards_consume_bounds_left_to_right() {
    let tokens = vec![
        tok("$.a.0.b.0", n(1)),
        tok("$.a.0.b.1", n(2)),
        tok("$.a.1.b.0", n(3)),
        tok("$.a.1.b.1", n(4)),
    ];
    let r = Transformer::array_search(&tokens, "$.a[*].b[*]", "1|1").unwrap();
    assert_eq!(r, vec![Some(n(1)), Some(n(2)), Some(n(3)), Some(n(4))]);
}

#[test]
fn an_unusable_bound_string_is_a_configuration_error() {
    let tokens = vec![tok("$.a.0", n(1))];
    let err = Transformer::array_search(&tokens, "$.a[*]", "x").unwrap_err();
    assert_eq!(
        err,
        TransformError::Configuration("invalid enumeration bound: x".to_string())
    );
}

#[test]
fn an_empty_bound_string_enumerates_nothing() {
    let tokens = vec![tok("$.a.0", n(1))];
    let r = Transformer::array_search(&tokens, "$.a[*]", "").unwrap();
    assert_eq!(r, vec![]);
}
