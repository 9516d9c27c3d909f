use analysis_cache::json::{clone_value, to_text, JsonValue};
use analysis_cache::aggregate::format_for_lsp_message;
use analysis_cache::envelope::wrap_with_metadata;
use analysis_cache::keyer::hash_path;
use analysis_cache::parse::parse_document;
use analysis_cache::paths::{cache_root_for_workspace, resolve_workspace_root, target_path_for, tmp_path_for};
use analysis_cache::pipeline::{decode_analyzer_output, did_save_step, SaveOutcome};
use analysis_cache::store::Store;

fn obj(fields: Vec<(&str, JsonValue)>) -> JsonValue {
    JsonValue::Obj(fields.into_iter().map(|(k, v)| (k.to_string(), v)).collect())
}

fn s(text: &str) -> JsonValue {
    JsonValue::Str(text.to_string())
}

fn get<'a>(v: &'a JsonValue, key: &str) -> Option<&'a JsonValue> {
    match v {
        JsonValue::Obj(fields) => fields.iter().find(|(k, _)| k == key).map(|(_, v)| v),
        _ => None,
    }
}

#[test]
fn serialize_scalars() {
    assert_eq!(to_text(&JsonValue::Null), "null");
    assert_eq!(to_text(&JsonValue::Bool(true)), "true");
    assert_eq!(to_text(&JsonValue::Bool(false)), "false");
    assert_eq!(to_text(&JsonValue::Int(0)), "0");
    assert_eq!(to_text(&JsonValue::Int(1234567890)), "1234567890");
    assert_eq!(to_text(&JsonValue::Int(-42)), "-42");
    assert_eq!(to_text(&JsonValue::Int(i64::MIN)), "-9223372036854775808");
    assert_eq!(to_text(&JsonValue::Int(i64::MAX)), "9223372036854775807");
    assert_eq!(to_text(&s("hi")), "\"hi\"");
    assert_eq!(to_text(&s("a\"b\\c")), "\"a\\\"b\\\\c\"");
}

#[test]
fn serialize_composites() {
    let v = obj(vec![
        ("xs", JsonValue::Arr(vec![JsonValue::Int(1), JsonValue::Null])),
        ("b", JsonValue::Bool(false)),
    ]);
    assert_eq!(to_text(&v), "{\"xs\":[1,null],\"b\":false}");
    assert_eq!(to_text(&JsonValue::Arr(vec![])), "[]");
    assert_eq!(to_text(&obj(vec![])), "{}");
}

#[test]
fn parse_simple_values() {
    assert_eq!(parse_document("null"), Some(JsonValue::Null));
    assert_eq!(parse_document(" true "), Some(JsonValue::Bool(true)));
    assert_eq!(parse_document("-17"), Some(JsonValue::Int(-17)));
    assert_eq!(parse_document("\"x\""), Some(s("x")));
    assert_eq!(
        parse_document("[1, 2, 3]"),
        Some(JsonValue::Arr(vec![
            JsonValue::Int(1),
            JsonValue::Int(2),
            JsonValue::Int(3)
        ]))
    );
    assert_eq!(
        parse_document("{ \"a\" : [true] }"),
        Some(obj(vec![("a", JsonValue::Arr(vec![JsonValue::Bool(true)]))]))
    );
    assert_eq!(parse_document("[]"), Some(JsonValue::Arr(vec![])));
    assert_eq!(parse_document("{}"), Some(obj(vec![])));
}

#[test]
fn parse_number_limits() {
    assert_eq!(
        parse_document("9223372036854775807"),
        Some(JsonValue::Int(i64::MAX))
    );
    assert_eq!(
        parse_document("-9223372036854775808"),
        Some(JsonValue::Int(i64::MIN))
    );
    assert_eq!(parse_document("9223372036854775808"), None);
    assert_eq!(parse_document("-9223372036854775809"), None);
}

#[test]
fn parse_rejects_malformed_text() {
    assert_eq!(parse_document("oops"), None);
    assert_eq!(parse_document(""), None);
    assert_eq!(parse_document("[1,"), None);
    assert_eq!(parse_document("{\"a\":}"), None);
    assert_eq!(parse_document("\"unterminated"), None);
    assert_eq!(parse_document("null trailing"), None);
}

#[test]
fn parse_string_escapes() {
    assert_eq!(parse_document("\"a\\\"b\\\\c\\n\""), Some(s("a\"b\\c\n")));
    let original = s("line1\nline2\t\"quoted\" back\\slash");
    let round = parse_document(&to_text(&original));
    assert_eq!(round, Some(original));
}

#[test]
fn codec_round_trip_composite() {
    let v = obj(vec![
        ("classes", JsonValue::Arr(vec![])),
        (
            "functions",
            JsonValue::Arr(vec![obj(vec![
                ("name", s("f")),
                ("parameters", JsonValue::Arr(vec![])),
                ("return_type", JsonValue::Null),
                ("function_calls", JsonValue::Arr(vec![])),
            ])]),
        ),
        ("imports", JsonValue::Arr(vec![JsonValue::Int(-3)])),
    ]);
    let text = to_text(&v);
    assert_eq!(parse_document(&text), Some(clone_value(&v)));
}

#[test]
fn hash_path_matches_reference_digest() {
    let key = hash_path("a.py");
    assert_eq!(key, blake3::hash("a.py".as_bytes()).to_hex().to_string());
}

#[test]
fn hash_path_is_deterministic_and_safe() {
    let k1 = hash_path("/w/a.py");
    let k2 = hash_path("/w/a.py");
    let k3 = hash_path("/w/b.py");
    assert_eq!(k1, k2);
    assert_ne!(k1, k3);
    assert_eq!(k1.len(), 64);
    assert!(k1.chars().all(|c| c.is_ascii_hexdigit() && !c.is_ascii_uppercase()));
    assert_ne!(k1, "/w/a.py");
}

#[test]
fn cache_paths_are_built_from_root_and_key() {
    assert_eq!(cache_root_for_workspace("/w"), "/w/.analysis-cache/files");
    let target = target_path_for("/w", "a.py");
    assert_eq!(
        target,
        format!("/w/.analysis-cache/files/{}.json", hash_path("a.py"))
    );
    assert_eq!(tmp_path_for(&target), format!("{}.tmp", target));
    assert_ne!(tmp_path_for(&target), target);
}

#[test]
fn aggregation_order_follows_first_arrival() {
    let mut store = Store::new();
    store.upsert_store_value("b.py".to_string(), well_formed_result());
    store.upsert_store_value("a.py".to_string(), well_formed_result());
    store.upsert_store_value("b.py".to_string(), well_formed_result());
    let payload = format_for_lsp_message(store.entries());
    assert_eq!(payload.len(), 2);
    assert_eq!(payload[0].file_name, "b.py");
    assert_eq!(payload[1].file_name, "a.py");
}

#[test]
fn workspace_root_resolution_order() {
    assert_eq!(
        resolve_workspace_root(Some("/root".to_string()), Some("/folder".to_string()), "/cwd".to_string()),
        "/root"
    );
    assert_eq!(
        resolve_workspace_root(None, Some("/folder".to_string()), "/cwd".to_string()),
        "/folder"
    );
    assert_eq!(
        resolve_workspace_root(None, None, "/cwd".to_string()),
        "/cwd"
    );
}

#[test]
fn envelope_carries_path_timestamp_and_data() {
    let data = obj(vec![("k", JsonValue::Int(7))]);
    let env = wrap_with_metadata("/w/a.py", "2024-05-06T07:08:09+00:00", clone_value(&data));
    assert_eq!(get(&env, "schema_version"), Some(&JsonValue::Int(1)));
    assert_eq!(get(&env, "original_path"), Some(&s("/w/a.py")));
    assert_eq!(get(&env, "analyzed_at"), Some(&s("2024-05-06T07:08:09+00:00")));
    assert_eq!(get(&env, "data"), Some(&data));
}

#[test]
fn envelope_round_trip_through_text() {
    let data = obj(vec![
        ("raw", s("oops")),
        ("xs", JsonValue::Arr(vec![JsonValue::Int(1), s("two")])),
    ]);
    let env = wrap_with_metadata("/w/a.py", "2024-01-02T03:04:05+00:00", clone_value(&data));
    let text = to_text(&env);
    let read_back = parse_document(&text).expect("persisted envelope text parses");
    assert_eq!(get(&read_back, "data"), Some(&data));
    assert_eq!(get(&read_back, "original_path"), Some(&s("/w/a.py")));
    assert_eq!(get(&read_back, "schema_version"), Some(&JsonValue::Int(1)));
}

#[test]
fn store_upsert_is_idempotent() {
    let mut store = Store::new();
    let value = obj(vec![("k", JsonValue::Int(1))]);
    store.upsert_store_value("a.py".to_string(), clone_value(&value));
    store.upsert_store_value("a.py".to_string(), clone_value(&value));
    assert_eq!(store.len(), 1);
    assert_eq!(store.get("a.py"), Some(&value));
}

#[test]
fn store_replaces_and_keeps_other_entries() {
    let mut store = Store::new();
    store.upsert_store_value("a.py".to_string(), JsonValue::Int(1));
    store.upsert_store_value("b.py".to_string(), JsonValue::Int(2));
    store.upsert_store_value("a.py".to_string(), JsonValue::Int(3));
    assert_eq!(store.len(), 2);
    assert_eq!(store.get("a.py"), Some(&JsonValue::Int(3)));
    assert_eq!(store.get("b.py"), Some(&JsonValue::Int(2)));
    assert_eq!(store.get("c.py"), None);
}

fn well_formed_result() -> JsonValue {
    obj(vec![
        ("classes", JsonValue::Arr(vec![])),
        (
            "functions",
            JsonValue::Arr(vec![obj(vec![
                ("name", s("f")),
                ("parameters", JsonValue::Arr(vec![])),
                ("return_type", JsonValue::Null),
                ("function_calls", JsonValue::Arr(vec![])),
            ])]),
        ),
        ("imports", JsonValue::Arr(vec![])),
    ])
}

#[test]
fn aggregation_keeps_only_well_formed_entries() {
    let mut store = Store::new();
    store.upsert_store_value("good.py".to_string(), well_formed_result());
    store.upsert_store_value(
        "bad.py".to_string(),
        obj(vec![
            ("classes", JsonValue::Arr(vec![])),
            ("functions", JsonValue::Arr(vec![])),
        ]),
    );
    let payload = format_for_lsp_message(store.entries());
    assert_eq!(payload.len(), 1);
    assert_eq!(payload[0].file_name, "good.py");
    assert_eq!(payload[0].functions.len(), 1);
    assert_eq!(payload[0].functions[0].name, "f");
    assert_eq!(payload[0].functions[0].parameters, Vec::<JsonValue>::new());
    assert_eq!(payload[0].functions[0].return_type, None);
    assert_eq!(payload[0].functions[0].function_calls, Vec::<JsonValue>::new());
}

#[test]
fn aggregation_skips_entries_that_are_not_objects() {
    let mut store = Store::new();
    store.upsert_store_value("raw.py".to_string(), s("oops"));
    let payload = format_for_lsp_message(store.entries());
    assert_eq!(payload.len(), 0);
}

#[test]
fn aggregation_carries_non_array_fields_as_empty() {
    let mut store = Store::new();
    store.upsert_store_value(
        "odd.py".to_string(),
        obj(vec![
            ("classes", JsonValue::Int(5)),
            ("functions", JsonValue::Arr(vec![])),
            ("imports", JsonValue::Bool(true)),
        ]),
    );
    let payload = format_for_lsp_message(store.entries());
    assert_eq!(payload.len(), 1);
    assert_eq!(payload[0].classes, Vec::<JsonValue>::new());
    assert_eq!(payload[0].imports, Vec::<JsonValue>::new());
}

#[test]
fn decode_wraps_non_document_text() {
    let decoded = decode_analyzer_output("oops".to_string());
    assert_eq!(decoded, obj(vec![("raw", s("oops"))]));
}

#[test]
fn decode_keeps_document_text() {
    let decoded = decode_analyzer_output("{\"a\": 1}".to_string());
    assert_eq!(decoded, obj(vec![("a", JsonValue::Int(1))]));
}

#[test]
fn save_event_for_missing_file_touches_nothing() {
    let mut store = Store::new();
    store.upsert_store_value("keep.py".to_string(), JsonValue::Int(9));
    let outcome = did_save_step(
        &mut store,
        false,
        "gone.py".to_string(),
        Ok("{}".to_string()),
        "/w",
        "2024-01-01T00:00:00+00:00",
    );
    assert_eq!(outcome, SaveOutcome::NotFound);
    assert_eq!(store.len(), 1);
    assert_eq!(store.get("gone.py"), None);
}

#[test]
fn save_event_reports_analyzer_failure() {
    let mut store = Store::new();
    let outcome = did_save_step(
        &mut store,
        true,
        "a.py".to_string(),
        Err("parser crashed".to_string()),
        "/w",
        "2024-01-01T00:00:00+00:00",
    );
    assert_eq!(
        outcome,
        SaveOutcome::AnalyzerFailed {
            message: "parser crashed".to_string()
        }
    );
    assert_eq!(store.len(), 0);
}

#[test]
fn save_event_stores_aggregates_and_plans_persistence() {
    let mut store = Store::new();
    let analyzer_text = "{\"classes\": [], \"functions\": [{\"name\":\"f\",\"parameters\":[],\"return_type\":null,\"function_calls\":[]}], \"imports\": []}";
    let outcome = did_save_step(
        &mut store,
        true,
        "a.py".to_string(),
        Ok(analyzer_text.to_string()),
        "/w",
        "2024-01-01T00:00:00+00:00",
    );
    assert_eq!(store.len(), 1);
    assert_eq!(store.get("a.py"), Some(&well_formed_result()));
    match outcome {
        SaveOutcome::Processed {
            payload,
            target,
            tmp,
            content,
        } => {
            assert_eq!(payload.len(), 1);
            assert_eq!(payload[0].file_name, "a.py");
            assert_eq!(payload[0].functions.len(), 1);
            assert_eq!(payload[0].functions[0].name, "f");
            assert_eq!(
                target,
                format!("/w/.analysis-cache/files/{}.json", hash_path("a.py"))
            );
            assert_eq!(tmp, format!("{}.tmp", target));
            let env = parse_document(&content).expect("planned file content parses");
            assert_eq!(get(&env, "schema_version"), Some(&JsonValue::Int(1)));
            assert_eq!(get(&env, "original_path"), Some(&s("a.py")));
            assert_eq!(get(&env, "data"), Some(&well_formed_result()));
        }
        other => panic!("expected a processed outcome, got {:?}", other),
    }
}

#[test]
fn save_event_persists_raw_wrapper_for_non_json_output() {
    let mut store = Store::new();
    let outcome = did_save_step(
        &mut store,
        true,
        "a.py".to_string(),
        Ok("oops".to_string()),
        "/w",
        "2024-01-01T00:00:00+00:00",
    );
    assert_eq!(store.get("a.py"), Some(&obj(vec![("raw", s("oops"))])));
    match outcome {
        SaveOutcome::Processed { content, .. } => {
            let env = parse_document(&content).expect("planned file content parses");
            let data = get(&env, "data").expect("envelope has data");
            assert_eq!(get(data, "raw"), Some(&s("oops")));
        }
        other => panic!("expected a processed outcome, got {:?}", other),
    }
}
