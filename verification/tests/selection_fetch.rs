use serde_json::Value;
use stargate::fetch::{
    build_request, element_or_null_of, fetch_variables, merge_fetch_result, representations,
    try_merge_fetch_result, GraphQLResponse,
};
use stargate::json::Json;
use stargate::plan::{Field, InlineFragment, Selection};
use stargate::selection::{execute_selection_set, try_execute_selection_set};

fn to_json(v: &Value) -> Json {
    match v {
        Value::Null => Json::Null,
        Value::Bool(b) => Json::Bool(*b),
        Value::Number(n) => Json::Number(n.to_string()),
        Value::String(s) => Json::String(s.clone()),
        Value::Array(items) => Json::Array(items.iter().map(to_json).collect()),
        Value::Object(map) => Json::Object(map.iter().map(|(k, v)| (k.clone(), to_json(v))).collect()),
    }
}

fn to_value(j: &Json) -> Value {
    match j {
        Json::Null => Value::Null,
        Json::Bool(b) => Value::Bool(*b),
        Json::Number(n) => Value::Number(n.parse().unwrap()),
        Json::String(s) => Value::String(s.clone()),
        Json::Array(items) => Value::Array(items.iter().map(to_value).collect()),
        Json::Object(fields) => {
            let mut map = serde_json::Map::new();
            for (k, v) in fields {
                map.insert(k.clone(), to_value(v));
            }
            Value::Object(map)
        }
    }
}

fn parse(text: &str) -> Json {
    to_json(&serde_json::from_str::<Value>(text).unwrap())
}

fn value(text: &str) -> Value {
    serde_json::from_str(text).unwrap()
}

fn field(name: &str) -> Selection {
    Selection::Field(Field { alias: None, name: name.to_string(), selections: None })
}

fn aliased(alias: &str, name: &str) -> Selection {
    Selection::Field(Field { alias: Some(alias.to_string()), name: name.to_string(), selections: None })
}

fn nested(name: &str, sels: Vec<Selection>) -> Selection {
    Selection::Field(Field { alias: None, name: name.to_string(), selections: Some(sels) })
}

fn fragment(type_condition: Option<&str>, sels: Vec<Selection>) -> Selection {
    Selection::InlineFragment(InlineFragment {
        type_condition: type_condition.map(|t| t.to_string()),
        selections: sels,
    })
}

#[test]
fn selection_of_null_is_null() {
    let r = execute_selection_set(&Json::Null, &vec![field("a")]);
    assert_eq!(to_value(&r), Value::Null);
}

#[test]
fn selection_picks_fields_under_their_response_names() {
    // A field is read from the source under its response name, which is its
    // alias where it has one.
    let source = parse(r#"{"__typename":"Book","id":"1234","isbn":"9","year":1}"#);
    let r = execute_selection_set(&source, &vec![field("__typename"), aliased("id", "isbn")]);
    assert_eq!(to_value(&r), value(r#"{"__typename":"Book","id":"1234"}"#));
    let source = parse(r#"{"isbn":"9"}"#);
    assert!(try_execute_selection_set(&source, &vec![aliased("id", "isbn")]).is_none());
}

#[test]
fn selection_descends_into_nested_selections() {
    let source = parse(r#"{"author":{"name":"A","age":3},"x":1}"#);
    let r = execute_selection_set(&source, &vec![nested("author", vec![field("name")])]);
    assert_eq!(to_value(&r), value(r#"{"author":{"name":"A"}}"#));
}

#[test]
fn selection_of_arrays_applies_the_whole_set_to_each_element() {
    // Elements of an array field with selections are read under the whole
    // selection set, not under the field's own selections.
    let source = parse(r#"{"reviews":[{"reviews":[],"body":"b"},{"reviews":[],"id":"2"}]}"#);
    let sels = vec![nested("reviews", vec![field("body")])];
    let r = execute_selection_set(&source, &sels);
    assert_eq!(to_value(&r), value(r#"{"reviews":[{"reviews":[]},{"reviews":[]}]}"#));
    let source = parse(r#"{"tags":["a","b"]}"#);
    let r = execute_selection_set(&source, &vec![field("tags")]);
    assert_eq!(to_value(&r), value(r#"{"tags":["a","b"]}"#));
}

#[test]
fn selection_applies_fragments_by_typename() {
    let source = parse(r#"{"__typename":"Book","isbn":"1","title":"T"}"#);
    let sels = vec![
        field("__typename"),
        fragment(Some("Book"), vec![field("isbn")]),
        fragment(Some("Furniture"), vec![field("title")]),
        fragment(None, vec![field("title")]),
    ];
    let r = execute_selection_set(&source, &sels);
    assert_eq!(to_value(&r), value(r#"{"__typename":"Book","isbn":"1"}"#));
    let source = parse(r#"{"isbn":"1"}"#);
    let r = execute_selection_set(&source, &vec![fragment(Some("Book"), vec![field("isbn")])]);
    assert_eq!(to_value(&r), value("{}"));
}

#[test]
fn selection_gives_none_where_a_field_cannot_be_read() {
    let source = parse(r#"{"a":1}"#);
    assert!(try_execute_selection_set(&source, &vec![field("b")]).is_none());
    assert!(try_execute_selection_set(&parse("[1]"), &vec![field("b")]).is_none());
    let source = parse(r#"{"__typename":3}"#);
    assert!(try_execute_selection_set(&source, &vec![fragment(Some("Book"), vec![])]).is_none());
    let source = parse(r#"{"a":[{"b":1}]}"#);
    assert!(try_execute_selection_set(&source, &vec![nested("a", vec![field("b")])]).is_none());
}

#[test]
fn representations_of_an_array_of_entities() {
    let results = parse(r#"[{"__typename":"Book","isbn":"1"},{"isbn":"2"},{"__typename":"Book","isbn":"3"}]"#);
    let (reps, idx) = representations(&results, &vec![field("isbn"), fragment(Some("Book"), vec![field("__typename")])]).unwrap();
    assert_eq!(idx, vec![0, 2]);
    assert_eq!(reps.len(), 2);
    assert_eq!(to_value(&reps[1]), value(r#"{"isbn":"3","__typename":"Book"}"#));
}

#[test]
fn representations_of_an_object_and_of_anything_else() {
    let results = parse(r#"{"__typename":"User","id":"1","name":"n"}"#);
    let (reps, idx) = representations(&results, &vec![field("__typename"), field("id")]).unwrap();
    assert_eq!(idx, vec![0]);
    assert_eq!(to_value(&reps[0]), value(r#"{"__typename":"User","id":"1"}"#));
    let (reps, idx) = representations(&results, &vec![field("id")]).unwrap();
    assert!(reps.is_empty() && idx.is_empty());
    let (reps, idx) = representations(&parse("3"), &vec![field("id")]).unwrap();
    assert!(reps.is_empty() && idx.is_empty());
    assert!(representations(&results, &vec![field("missing")]).is_none());
}

#[test]
fn fetch_variables_bind_representations() {
    let results = parse(r#"[{"__typename":"Book","isbn":"1"}]"#);
    let (vars, idx) = fetch_variables(&results, &Some(vec![field("__typename"), field("isbn")])).unwrap();
    assert_eq!(vars.len(), 1);
    assert_eq!(vars[0].0, "representations");
    assert_eq!(to_value(&vars[0].1), value(r#"[{"__typename":"Book","isbn":"1"}]"#));
    assert_eq!(idx, vec![0]);
    let (vars, idx) = fetch_variables(&results, &None).unwrap();
    assert!(vars.is_empty() && idx.is_empty());
    assert!(fetch_variables(&results, &Some(vec![field("nope")])).is_none());
}

#[test]
fn fetch_answer_is_merged_into_entities() {
    let mut results = parse(r#"[{"__typename":"Book","isbn":"1"},{"x":0},{"__typename":"Book","isbn":"3"}]"#);
    let data = parse(r#"{"_entities":[{"title":"One"},{"title":"Three"}]}"#);
    merge_fetch_result(&mut results, true, &vec![0, 2], &data);
    assert_eq!(
        to_value(&results),
        value(r#"[{"__typename":"Book","isbn":"1","title":"One"},{"x":0},{"__typename":"Book","isbn":"3","title":"Three"}]"#)
    );
}

#[test]
fn fetch_answer_merges_into_an_object_and_whole_answers() {
    let mut results = parse(r#"{"id":"1"}"#);
    merge_fetch_result(&mut results, true, &vec![0], &parse(r#"{"_entities":[{"name":"n"}]}"#));
    assert_eq!(to_value(&results), value(r#"{"id":"1","name":"n"}"#));
    let mut results = parse(r#"{}"#);
    merge_fetch_result(&mut results, false, &vec![], &parse(r#"{"me":{"id":"1"}}"#));
    assert_eq!(to_value(&results), value(r#"{"me":{"id":"1"}}"#));
    let mut results = parse(r#"7"#);
    merge_fetch_result(&mut results, true, &vec![], &parse(r#"{"_entities":[]}"#));
    assert_eq!(to_value(&results), value("7"));
}

#[test]
fn fetch_answer_missing_an_answer_nulls_the_entity() {
    let mut results = parse(r#"[{"id":"1"}]"#);
    merge_fetch_result(&mut results, true, &vec![0], &parse(r#"{"_entities":[]}"#));
    assert_eq!(to_value(&results), value("[null]"));
}

#[test]
fn an_answer_that_cannot_be_merged_gives_none() {
    let mut results = parse(r#"[{"id":"1"}]"#);
    assert!(!try_merge_fetch_result(&mut results, true, &vec![0], &parse(r#"{"data":[]}"#)));
    let mut results = parse(r#"[{"id":"1"}]"#);
    assert!(!try_merge_fetch_result(&mut results, true, &vec![5], &parse(r#"{"_entities":[{}]}"#)));
}

#[test]
fn prepared_fetches_always_take_their_answers() {
    let results = parse(r#"[{"__typename":"A","id":"1"},{"id":"2"},{"__typename":"A","id":"3"}]"#);
    let (_, idx) = representations(&results, &vec![field("id"), fragment(Some("A"), vec![field("__typename")])]).unwrap();
    for i in &idx {
        assert!(*i < 3);
    }
    let mut merged = parse(r#"[{"__typename":"A","id":"1"},{"id":"2"},{"__typename":"A","id":"3"}]"#);
    assert!(try_merge_fetch_result(&mut merged, true, &idx, &parse(r#"{"_entities":[{"n":1}]}"#)));
}

#[test]
fn element_or_null_reads_arrays_only() {
    assert_eq!(to_value(&element_or_null_of(&parse("[1,2]"), 1)), value("2"));
    assert_eq!(to_value(&element_or_null_of(&parse("[1,2]"), 2)), Value::Null);
    assert_eq!(to_value(&element_or_null_of(&parse(r#"{"0":1}"#), 0)), Value::Null);
}

#[test]
fn request_holds_operation_name_and_variables() {
    let r = build_request("query { me { id } }".to_string(), Some("Me".to_string()), vec![("x".to_string(), Json::Bool(true))]);
    assert_eq!(r.query, "query { me { id } }");
    assert_eq!(r.operation_name, Some("Me".to_string()));
    assert_eq!(to_value(r.variables.as_ref().unwrap()), value(r#"{"x":true}"#));
    let response = GraphQLResponse { data: Some(Json::Null) };
    assert!(response.data.unwrap().is_null());
}

#[test]
fn an_array_field_is_answered_element_by_element() {
    let source = parse(r#"{"a":[{"a":null,"x":1},{"a":null}],"y":2}"#);
    let r = execute_selection_set(&source, &vec![nested("a", vec![field("x")])]);
    assert_eq!(to_value(&r), value(r#"{"a":[{"a":null},{"a":null}]}"#));
    let r = execute_selection_set(&source, &vec![field("a")]);
    assert_eq!(to_value(&r), value(r#"{"a":[{"a":null,"x":1},{"a":null}]}"#));
    let source = parse(r#"{"a":[{"x":1}]}"#);
    assert!(try_execute_selection_set(&source, &vec![nested("a", vec![field("x")])]).is_none());
}

#[test]
fn a_fragment_that_does_not_apply_adds_nothing() {
    let source = parse(r#"{"__typename":"Book","isbn":"1","title":"T"}"#);
    let sels = vec![field("isbn")];
    let plain = execute_selection_set(&source, &sels);
    for frag in [
        fragment(None, vec![field("title")]),
        fragment(Some("Furniture"), vec![field("title")]),
    ] {
        let mut more = vec![field("isbn")];
        more.push(frag);
        assert_eq!(to_value(&execute_selection_set(&source, &more)), to_value(&plain));
    }
    let source = parse(r#"{"isbn":"1","title":"T"}"#);
    let more = vec![field("isbn"), fragment(Some("Book"), vec![field("title")])];
    assert_eq!(to_value(&execute_selection_set(&source, &more)), value(r#"{"isbn":"1"}"#));
}
