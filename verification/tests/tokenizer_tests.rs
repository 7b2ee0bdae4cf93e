use cleansweep_core::json::JsonValue;
use cleansweep_core::model::TransformError;
use cleansweep_core::tokenize::Token;
use cleansweep_core::tokenize::Tokenizer;

fn s(v: &str) -> JsonValue {
    JsonValue::Str(v.to_string())
}

fn n(v: i64) -> JsonValue {
    JsonValue::Int(v)
}

fn obj(fields: Vec<(&str, JsonValue)>) -> JsonValue {
    JsonValue::Obj(fields.into_iter().map(|(k, v)| (k.to_string(), v)).collect())
}

fn arr(items: Vec<JsonValue>) -> JsonValue {
    JsonValue::Arr(items)
}

fn tok(path: &str, value: JsonValue) -> Token {
    Token { path: path.to_string(), value }
}

#[test]
fn nested_object_flattens_sorted() {
    let doc = obj(vec![("a", obj(vec![("b", n(1)), ("c", n(2))]))]);
    let tokens = Tokenizer::tokenize(&doc, None);
    assert_eq!(tokens, vec![tok("$.a.b", n(1)), tok("$.a.c", n(2))]);
}

#[test]
fn unsorted_keys_come_out_sorted() {
    let doc = obj(vec![("b", n(1)), ("a", n(2))]);
    let tokens = Tokenizer::tokenize(&doc, None);
    assert_eq!(tokens, vec![tok("$.a", n(2)), tok("$.b", n(1))]);
}

#[test]
fn empty_object_has_no_tokens() {
    let doc = obj(vec![]);
    let tokens = Tokenizer::tokenize(&doc, None);
    assert_eq!(tokens, vec![]);
}

#[test]
fn scalar_array_stays_one_leaf() {
    let doc = obj(vec![("xs", arr(vec![n(1), n(2)]))]);
    let tokens = Tokenizer::tokenize(&doc, None);
    assert_eq!(tokens, vec![tok("$.xs", arr(vec![n(1), n(2)]))]);
}

#[test]
fn object_array_expands_by_index() {
    let doc = obj(vec![("a", arr(vec![obj(vec![("b", n(1))]), obj(vec![("b", n(2))])]))]);
    let tokens = Tokenizer::tokenize(&doc, None);
    assert_eq!(tokens, vec![tok("$.a.0.b", n(1)), tok("$.a.1.b", n(2))]);
}

#[test]
fn mixed_array_stays_one_leaf() {
    let doc = obj(vec![("a", arr(vec![obj(vec![("b", n(1))]), n(7)]))]);
    let tokens = Tokenizer::tokenize(&doc, None);
    assert_eq!(tokens, vec![tok("$.a", arr(vec![obj(vec![("b", n(1))]), n(7)]))]);
}

#[test]
fn array_of_arrays_stays_one_leaf() {
    let doc = obj(vec![("a", arr(vec![arr(vec![n(1)]), arr(vec![n(2)])]))]);
    let tokens = Tokenizer::tokenize(&doc, None);
    assert_eq!(tokens, vec![tok("$.a", arr(vec![arr(vec![n(1)]), arr(vec![n(2)])]))]);
}

#[test]
fn top_level_array_yields_one_index_per_element() {
    let doc = arr(vec![obj(vec![("x", n(1))]), obj(vec![("x", n(2))])]);
    let indexes = Tokenizer::tokenize_document(&doc, None).unwrap();
    assert_eq!(indexes, vec![vec![tok("$.x", n(1))], vec![tok("$.x", n(2))]]);
}

#[test]
fn top_level_object_yields_one_index() {
    let doc = obj(vec![("x", n(1))]);
    let indexes = Tokenizer::tokenize_document(&doc, None).unwrap();
    assert_eq!(indexes, vec![vec![tok("$.x", n(1))]]);
}

#[test]
fn top_level_scalar_is_a_data_error() {
    let doc = n(3);
    let err = Tokenizer::tokenize_document(&doc, None).unwrap_err();
    assert_eq!(err, TransformError::Data("invalid JSON document".to_string()));
    assert!(!err.is_configuration());
}

#[test]
fn selector_narrows_before_tokenizing() {
    let doc = obj(vec![("a", obj(vec![("b", n(1))])), ("z", n(9))]);
    let indexes = Tokenizer::tokenize_document(&doc, Some("$.a")).unwrap();
    assert_eq!(indexes, vec![vec![tok("$.b", n(1))]]);
}

#[test]
fn selector_with_bracket_index_narrows_into_arrays() {
    let doc = obj(vec![("a", arr(vec![obj(vec![("b", s("v"))])]))]);
    let indexes = Tokenizer::tokenize_document(&doc, Some("$.a[0]")).unwrap();
    assert_eq!(indexes, vec![vec![tok("$.b", s("v"))]]);
}

#[test]
fn unresolved_selector_is_a_data_error() {
    let doc = obj(vec![("a", n(1))]);
    let err = Tokenizer::tokenize_document(&doc, Some("$.missing")).unwrap_err();
    assert_eq!(err, TransformError::Data("narrowing selector did not resolve".to_string()));
}
