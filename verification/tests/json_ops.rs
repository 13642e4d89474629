use serde_json::Value;
use stargate::json::Json;
use stargate::merge::{merge, remove_field};
use stargate::path::{
    flatten_results_at_path, is_at_sign, merge_flattend_results, try_begin_flatten,
    try_flatten_results_at_path, try_merge_flattend_results,
};

fn to_json(v: &Value) -> Json {
    match v {
        Value::Null => Json::Null,
        Value::Bool(b) => Json::Bool(*b),
        Value::Number(n) => Json::Number(n.to_string()),
        Value::String(s) => Json::String(s.clone()),
        Value::Array(items) => Json::Array(items.iter().map(to_json).collect()),
        Value::Object(map) => Json::Object(map.iter().map(|(k, v)| (k.clone(), to_json(v))).collect()),
    }
}

fn to_value(j: &Json) -> Value {
    match j {
        Json::Null => Value::Null,
        Json::Bool(b) => Value::Bool(*b),
        Json::Number(n) => Value::Number(n.parse().unwrap()),
        Json::String(s) => Value::String(s.clone()),
        Json::Array(items) => Value::Array(items.iter().map(to_value).collect()),
        Json::Object(fields) => {
            let mut map = serde_json::Map::new();
            for (k, v) in fields {
                map.insert(k.clone(), to_value(v));
            }
            Value::Object(map)
        }
    }
}

fn parse(text: &str) -> Json {
    to_json(&serde_json::from_str::<Value>(text).unwrap())
}

fn text(j: &Json) -> Value {
    to_value(j)
}

fn path(keys: &[&str]) -> Vec<String> {
    keys.iter().map(|k| k.to_string()).collect()
}

/// Merging with the library gives what json_patch gives.
fn check_merge(doc: &str, patch: &str) {
    let mut ours = parse(doc);
    merge(&mut ours, &parse(patch));
    let mut theirs: Value = serde_json::from_str(doc).unwrap();
    json_patch::merge(&mut theirs, &serde_json::from_str(patch).unwrap());
    assert_eq!(text(&ours), theirs, "merging {} into {}", patch, doc);
}

#[test]
fn merge_matches_json_patch() {
    check_merge(r#"{"a":"b"}"#, r#"{"a":"c"}"#);
    check_merge(r#"{"a":"b"}"#, r#"{"b":"c"}"#);
    check_merge(r#"{"a":"b"}"#, r#"{"a":null}"#);
    check_merge(r#"{"a":"b","b":"c"}"#, r#"{"a":null}"#);
    check_merge(r#"{"a":["b"]}"#, r#"{"a":"c"}"#);
    check_merge(r#"{"a":"c"}"#, r#"{"a":["b"]}"#);
    check_merge(r#"{"a":{"b":"c"}}"#, r#"{"a":{"b":"d","c":null}}"#);
    check_merge(r#"{"a":[{"b":"c"}]}"#, r#"{"a":[1]}"#);
    check_merge(r#"["a","b"]"#, r#"["c","d"]"#);
    check_merge(r#"{"a":"b"}"#, r#"["c"]"#);
    check_merge(r#"{"a":"foo"}"#, r#"null"#);
    check_merge(r#"{"a":"foo"}"#, r#""bar""#);
    check_merge(r#"{"e":null}"#, r#"{"a":1}"#);
    check_merge(r#"[1,2]"#, r#"{"a":"b","c":null}"#);
    check_merge(r#"{}"#, r#"{"a":{"bb":{"ccc":null}}}"#);
    check_merge(r#"{"n":1.5,"m":-3}"#, r#"{"n":2,"k":true}"#);
}

#[test]
fn merge_replaces_with_non_object_patch() {
    let mut doc = parse(r#"{"a":1}"#);
    merge(&mut doc, &parse(r#"[1,2]"#));
    assert_eq!(text(&doc), serde_json::from_str::<Value>("[1,2]").unwrap());
}

#[test]
fn merge_into_non_object_starts_from_empty_object() {
    let mut doc = parse(r#"[1]"#);
    merge(&mut doc, &parse(r#"{"a":null,"b":2}"#));
    assert_eq!(text(&doc), serde_json::from_str::<Value>(r#"{"b":2}"#).unwrap());
}

#[test]
fn merge_keeps_field_order_and_appends_new_keys() {
    let mut doc = parse(r#"{"a":1,"b":2}"#);
    merge(&mut doc, &parse(r#"{"c":3,"a":4}"#));
    match &doc {
        Json::Object(fields) => {
            let keys: Vec<&str> = fields.iter().map(|(k, _)| k.as_str()).collect();
            assert_eq!(keys, vec!["a", "b", "c"]);
        }
        _ => panic!("not an object"),
    }
}

#[test]
fn remove_field_drops_every_entry_with_the_key() {
    let mut fields = vec![
        ("a".to_string(), Json::Null),
        ("b".to_string(), Json::Bool(true)),
        ("a".to_string(), Json::Bool(false)),
    ];
    remove_field(&mut fields, &"a".to_string());
    assert_eq!(fields.len(), 1);
    assert_eq!(fields[0].0, "b");
}

#[test]
fn at_sign_is_recognised() {
    assert!(is_at_sign(&"@".to_string()));
    assert!(!is_at_sign(&"a".to_string()));
    assert!(!is_at_sign(&"@@".to_string()));
}

#[test]
fn flatten_hands_back_the_array_at_the_path() {
    let mut results = parse(r#"{"topProducts":[{"__typename":"Book","isbn":"1234"}]}"#);
    let before = text(&results);
    let flat = flatten_results_at_path(&mut results, &path(&["topProducts", "@"]));
    assert_eq!(text(&flat), serde_json::from_str::<Value>(r#"[{"__typename":"Book","isbn":"1234"}]"#).unwrap());
    assert_eq!(text(&results), before);
}

#[test]
fn flatten_replaces_an_array_by_the_flattened_elements() {
    let mut results = parse(r#"{"a":[{"b":1},{"b":2}]}"#);
    let flat = flatten_results_at_path(&mut results, &path(&["a", "@", "b"]));
    assert_eq!(text(&flat), serde_json::from_str::<Value>("[1,2]").unwrap());
    assert_eq!(text(&results), serde_json::from_str::<Value>(r#"{"a":[1,2]}"#).unwrap());
}

#[test]
fn flatten_of_null_and_of_empty_path() {
    let mut results = parse("null");
    let flat = flatten_results_at_path(&mut results, &path(&["a", "b"]));
    assert_eq!(text(&flat), Value::Null);
    let mut results = parse(r#"{"x":1}"#);
    let flat = flatten_results_at_path(&mut results, &path(&[]));
    assert_eq!(text(&flat), serde_json::from_str::<Value>(r#"{"x":1}"#).unwrap());
}

#[test]
fn flatten_at_sign_on_a_non_array_hands_it_back() {
    let mut results = parse(r#"{"a":{"b":1}}"#);
    let flat = flatten_results_at_path(&mut results, &path(&["a", "@"]));
    assert_eq!(text(&flat), serde_json::from_str::<Value>(r#"{"b":1}"#).unwrap());
}

#[test]
fn flatten_fails_on_a_missing_key() {
    let mut results = parse(r#"{"a":1}"#);
    assert!(try_flatten_results_at_path(&mut results, &path(&["b"])).is_none());
    let mut results = parse(r#"[1]"#);
    assert!(try_flatten_results_at_path(&mut results, &path(&["b"])).is_none());
    let mut results = parse(r#"{"a":[{"c":1}]}"#);
    assert!(try_flatten_results_at_path(&mut results, &path(&["a", "@", "b"])).is_none());
}

#[test]
fn merge_flattened_results_at_array() {
    let mut results = parse(r#"{"topProducts":[{"__typename":"Book","isbn":"1234"}]}"#);
    let child = parse(r#"[{"__typename":"Book","isbn":"1234","name":"Best book ever"}]"#);
    merge_flattend_results(&mut results, &child, &path(&["topProducts", "@"]));
    assert_eq!(
        text(&results),
        serde_json::from_str::<Value>(r#"{"topProducts":[{"__typename":"Book","isbn":"1234","name":"Best book ever"}]}"#).unwrap()
    );
}

#[test]
fn merge_flattened_results_at_key_and_null_child() {
    let mut results = parse(r#"{"a":{"b":1}}"#);
    merge_flattend_results(&mut results, &parse(r#"{"c":2}"#), &path(&["a"]));
    assert_eq!(text(&results), serde_json::from_str::<Value>(r#"{"a":{"b":1,"c":2}}"#).unwrap());
    let mut results = parse(r#"{"a":{"b":1}}"#);
    merge_flattend_results(&mut results, &Json::Null, &path(&["a"]));
    assert_eq!(text(&results), Value::Null);
    let mut results = parse(r#"{"a":{"b":1}}"#);
    merge_flattend_results(&mut results, &parse(r#"{"c":2}"#), &path(&["@"]));
    assert_eq!(text(&results), serde_json::from_str::<Value>(r#"{"a":{"b":1}}"#).unwrap());
}

#[test]
fn merge_flattened_results_fails_on_a_missing_key() {
    let mut results = parse(r#"{"a":1}"#);
    assert!(!try_merge_flattend_results(&mut results, &parse("{}"), &path(&["b"])));
    let mut results = parse(r#""text""#);
    assert!(!try_merge_flattend_results(&mut results, &parse("{}"), &path(&["b"])));
}

#[test]
fn restitching_an_unchanged_flatten_restores_the_results() {
    for (doc, keys) in [
        (r#"{"topProducts":[{"__typename":"Book","isbn":"1234"}],"x":null}"#, vec!["topProducts", "@"]),
        (r#"{"me":{"id":"1","n":null,"m":{"k":null}}}"#, vec!["me"]),
        (r#"{"a":{"b":[1,2]}}"#, vec!["a", "b", "@"]),
        (r#"{"a":{"b":"s"}}"#, vec!["a", "@"]),
    ] {
        let mut results = parse(doc);
        let before = text(&results);
        let p = path(&keys);
        let inner = try_begin_flatten(&mut results, &p).unwrap();
        assert!(try_merge_flattend_results(&mut results, &inner, &p));
        assert_eq!(text(&results), before, "restitching {} at {:?}", doc, keys);
    }
}

#[test]
fn begin_flatten_merges_into_an_empty_object() {
    let mut results = parse(r#"{"me":{"id":"1","n":null}}"#);
    let inner = try_begin_flatten(&mut results, &path(&["me"])).unwrap();
    assert_eq!(text(&inner), serde_json::from_str::<Value>(r#"{"id":"1"}"#).unwrap());
    let mut results = parse(r#"{"a":1}"#);
    assert!(try_begin_flatten(&mut results, &path(&["b"])).is_none());
}

#[test]
fn deep_clone_and_predicates() {
    let j = parse(r#"{"a":[1,"x",null,true,{"b":[]}]}"#);
    assert_eq!(text(&j.deep_clone()), text(&j));
    assert!(j.is_object() && !j.is_array() && !j.is_null());
    assert!(Json::Null.is_null());
    assert_eq!(text(&Json::empty_object()), serde_json::from_str::<Value>("{}").unwrap());
    assert!(j.get(&"a".to_string()).unwrap().is_array());
    assert!(j.get(&"b".to_string()).is_none());
    assert!(Json::Null.get(&"a".to_string()).is_none());
}

#[test]
fn it_works() {
    assert_eq!(2 + 2, 4);
}

#[test]
fn flattening_at_an_array_and_merging_back_round_trips() {
    let mut results = parse(r#"{"a":{"b":[1,{"c":2}],"d":"x"},"e":[3]}"#);
    let before = text(&results);
    let p = path(&["a", "b", "@"]);
    let flat = flatten_results_at_path(&mut results, &p);
    assert_eq!(text(&results), before);
    assert_eq!(text(&flat), text(&parse(r#"[1,{"c":2}]"#)));
    merge_flattend_results(&mut results, &flat, &p);
    assert_eq!(text(&results), before);
    merge_flattend_results(&mut results, &parse(r#"[{"z":true}]"#), &p);
    assert_eq!(text(&results), text(&parse(r#"{"a":{"b":[{"z":true}],"d":"x"},"e":[3]}"#)));
}
