use cleansweep_core::json::JsonValue;
use cleansweep_core::model::ContentData;
use cleansweep_core::model::ContentModel;
use cleansweep_core::model::TableModel;
use cleansweep_core::model::TransformError;
use cleansweep_core::tokenize::Token;
use cleansweep_core::tokenize::Tokenizer;
use cleansweep_core::transformer::Transformer;

fn s(v: &str) -> JsonValue {
    JsonValue::Str(v.to_string())
}

fn n(v: i64) -> JsonValue {
    JsonValue::Int(v)
}

fn obj(fields: Vec<(&str, JsonValue)>) -> JsonValue {
    JsonValue::Obj(fields.into_iter().map(|(k, v)| (k.to_string(), v)).collect())
}

fn arr(items: Vec<JsonValue>) -> JsonValue {
    JsonValue::Arr(items)
}

fn tok(path: &str, value: JsonValue) -> Token {
    Token { path: path.to_string(), value }
}

#[test]
fn one_data_position_assembles_one_free_content_element() {
    let data = vec![Some(arr(vec![s("x")]))];
    let title = vec![None];
    let content = Transformer::create_data_content(data, title, None);
    assert_eq!(
        content,
        vec![ContentData::ContentModel(ContentModel {
            title: JsonValue::Null,
            data: arr(vec![s("x")]),
            metadata: vec![],
        })]
    );
}

#[test]
fn a_bare_scalar_datum_is_normalized_to_an_array() {
    let data = vec![Some(s("x"))];
    let content = Transformer::create_data_content(data, vec![], None);
    assert_eq!(
        content,
        vec![ContentData::ContentModel(ContentModel {
            title: JsonValue::Null,
            data: arr(vec![s("x")]),
            metadata: vec![],
        })]
    );
}

#[test]
fn requesting_an_undefined_key_is_a_configuration_error() {
    let tokens = vec![tok("$.a", n(1))];
    let mapping = obj(vec![("name", s("$.a"))]);
    let err = Transformer::get_single_value(&tokens, &mapping, "id").unwrap_err();
    assert_eq!(err, TransformError::Configuration("id mapping is required".to_string()));
    assert!(err.is_configuration());
}

#[test]
fn a_defined_key_matching_nothing_is_omitted_not_an_error() {
    let tokens = vec![tok("$.a", n(1))];
    let mapping = obj(vec![("id", s("$.missing"))]);
    let doc = Transformer::transform(&mapping, &tokens).unwrap();
    assert_eq!(doc.id, None);
}

#[test]
fn a_mapping_without_id_omits_it_from_the_document() {
    let tokens = vec![tok("$.a", n(1))];
    let mapping = obj(vec![("name", s("$.a"))]);
    let doc = Transformer::transform(&mapping, &tokens).unwrap();
    assert_eq!(doc.id, None);
    assert_eq!(doc.name, Some(n(1)));
    assert_eq!(doc.metadata, None);
    assert_eq!(doc.content, None);
}

#[test]
fn content_that_is_not_a_list_is_a_configuration_error() {
    let tokens = vec![tok("$.a", n(1))];
    let mapping = obj(vec![("content", n(5))]);
    let err = Transformer::transform(&mapping, &tokens).unwrap_err();
    assert_eq!(
        err,
        TransformError::Configuration("'content' mapping must be an array".to_string())
    );
}

#[test]
fn batch_outputs_keep_input_order() {
    let mapping = obj(vec![("id", s("$.k"))]);
    let mut documents: Vec<Vec<Token>> = Vec::new();
    for k in 1..4 {
        documents.push(Tokenizer::tokenize(&obj(vec![("k", n(k))]), None));
    }
    let out = Transformer::transform_documents(&mapping, &documents).unwrap();
    assert_eq!(out.len(), 3);
    for k in 1..4 {
        assert_eq!(out[k - 1].id, Some(n(k as i64)));
    }
}

#[test]
fn a_failing_record_fails_the_batch() {
    let mapping = obj(vec![("metadata", n(1))]);
    let documents = vec![Tokenizer::tokenize(&obj(vec![("k", n(1))]), None)];
    let err = Transformer::transform_documents(&mapping, &documents).unwrap_err();
    assert_eq!(
        err,
        TransformError::Configuration("metadata mapping must be an object".to_string())
    );
}

#[test]
fn echoed_metadata_reproduces_a_flat_object() {
    let doc = obj(vec![("x", n(1)), ("y", s("s"))]);
    let tokens = Tokenizer::tokenize(&doc, None);
    let mapping = obj(vec![("metadata", obj(vec![("x", s("$.x")), ("y", s("$.y"))]))]);
    let out = Transformer::transform(&mapping, &tokens).unwrap();
    assert_eq!(out.metadata, Some(obj(vec![("x", n(1)), ("y", s("s"))])));
}

#[test]
fn unmatched_metadata_keys_are_left_out() {
    let tokens = vec![tok("$.a", n(1))];
    let mapping = obj(vec![("metadata", obj(vec![("a", s("$.a")), ("b", s("$.b"))]))]);
    let out = Transformer::transform(&mapping, &tokens).unwrap();
    assert_eq!(out.metadata, Some(obj(vec![("a", n(1))])));
}

#[test]
fn wildcard_content_entry_assembles_aligned_elements() {
    let doc = obj(vec![(
        "items",
        arr(vec![
            obj(vec![("text", s("first")), ("heading", s("h1"))]),
            obj(vec![("text", s("second"))]),
        ]),
    )]);
    let tokens = Tokenizer::tokenize(&doc, None);
    let entry = obj(vec![("data", s("$.items[*].text")), ("title", s("$.items[*].heading"))]);
    let mapping = obj(vec![("content", arr(vec![entry]))]);
    let out = Transformer::transform(&mapping, &tokens).unwrap();
    assert_eq!(
        out.content,
        Some(vec![
            ContentData::ContentModel(ContentModel {
                title: s("h1"),
                data: arr(vec![s("first")]),
                metadata: vec![],
            }),
            ContentData::ContentModel(ContentModel {
                title: JsonValue::Null,
                data: arr(vec![s("second")]),
                metadata: vec![],
            }),
        ])
    );
}

#[test]
fn rows_without_data_assemble_a_table_element() {
    let doc = obj(vec![
        ("name", s("T")),
        (
            "t",
            arr(vec![obj(vec![
                ("rows", arr(vec![arr(vec![n(1)])])),
                ("cols", arr(vec![s("c")])),
            ])]),
        ),
    ]);
    let tokens = Tokenizer::tokenize(&doc, None);
    let entry = obj(vec![
        ("rows", s("$.t[*].rows")),
        ("columns", s("$.t[*].cols")),
        ("title", s("$.name")),
    ]);
    let mapping = obj(vec![("content", arr(vec![entry]))]);
    let out = Transformer::transform(&mapping, &tokens).unwrap();
    assert_eq!(
        out.content,
        Some(vec![ContentData::TableModel(TableModel {
            title: s("T"),
            rows: arr(vec![arr(vec![n(1)])]),
            columns: arr(vec![s("c")]),
            metadata: vec![],
        })])
    );
}

#[test]
fn entry_metadata_is_aligned_by_position() {
    let doc = obj(vec![(
        "items",
        arr(vec![
            obj(vec![("text", s("a")), ("lang", s("en"))]),
            obj(vec![("text", s("b"))]),
        ]),
    )]);
    let tokens = Tokenizer::tokenize(&doc, None);
    let entry = obj(vec![
        ("data", s("$.items[*].text")),
        ("metadata", obj(vec![("lang", s("$.items[*].lang"))])),
    ]);
    let mapping = obj(vec![("content", arr(vec![entry]))]);
    let out = Transformer::transform(&mapping, &tokens).unwrap();
    assert_eq!(
        out.content,
        Some(vec![
            ContentData::ContentModel(ContentModel {
                title: JsonValue::Null,
                data: arr(vec![s("a")]),
                metadata: vec![("lang".to_string(), s("en"))],
            }),
            ContentData::ContentModel(ContentModel {
                title: JsonValue::Null,
                data: arr(vec![s("b")]),
                metadata: vec![("lang".to_string(), JsonValue::Null)],
            }),
        ])
    );
}

#[test]
fn an_entry_matching_no_token_contributes_nothing() {
    let tokens = vec![tok("$.a", n(1))];
    let entry = obj(vec![("data", s("$.missing[*].text"))]);
    let mapping = obj(vec![("content", arr(vec![entry]))]);
    let out = Transformer::transform(&mapping, &tokens).unwrap();
    assert_eq!(out.content, Some(vec![]));
}

#[test]
fn all_null_data_falls_through_to_rows() {
    let data = vec![None, None];
    let rows = vec![Some(arr(vec![n(1)]))];
    let columns = vec![None];
    let content = Transformer::create_content(data, vec![], columns, rows, None);
    assert_eq!(
        content,
        vec![ContentData::TableModel(TableModel {
            title: JsonValue::Null,
            rows: arr(vec![n(1)]),
            columns: JsonValue::Null,
            metadata: vec![],
        })]
    );
}

#[test]
fn nothing_resolved_contributes_no_elements() {
    let content = Transformer::create_content(vec![None], vec![], vec![], vec![None], None);
    assert_eq!(content, vec![]);
}
