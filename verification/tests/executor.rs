use serde_json::Value;
use stargate::executor::{ExecError, Executor, FetchAction};
use stargate::fetch::{GraphQLRequest, RequestContext};
use stargate::json::Json;
use stargate::plan::{Field, FetchNode, FlattenNode, PlanNode, QueryPlan, Selection};
use stargate::semantics::plan_services_known;
use stargate::services::{get_service_list, ArgValue, Definition, Directive, ServiceList};

fn to_json(v: &Value) -> Json {
    match v {
        Value::Null => Json::Null,
        Value::Bool(b) => Json::Bool(*b),
        Value::Number(n) => Json::Number(n.to_string()),
        Value::String(s) => Json::String(s.clone()),
        Value::Array(items) => Json::Array(items.iter().map(to_json).collect()),
        Value::Object(map) => Json::Object(map.iter().map(|(k, v)| (k.clone(), to_json(v))).collect()),
    }
}

fn to_value(j: &Json) -> Value {
    match j {
        Json::Null => Value::Null,
        Json::Bool(b) => Value::Bool(*b),
        Json::Number(n) => Value::Number(n.parse().unwrap()),
        Json::String(s) => Value::String(s.clone()),
        Json::Array(items) => Value::Array(items.iter().map(to_value).collect()),
        Json::Object(fields) => {
            let mut map = serde_json::Map::new();
            for (k, v) in fields {
                map.insert(k.clone(), to_value(v));
            }
            Value::Object(map)
        }
    }
}

fn parse(text: &str) -> Json {
    to_json(&serde_json::from_str::<Value>(text).unwrap())
}

fn value(text: &str) -> Value {
    serde_json::from_str(text).unwrap()
}

fn services() -> ServiceList {
    let graph = |name: &str, url: &str| Directive {
        name: "graph".to_string(),
        arguments: vec![
            ("name".to_string(), ArgValue::String(name.to_string())),
            ("url".to_string(), ArgValue::String(url.to_string())),
        ],
    };
    get_service_list(&vec![Definition::Schema(vec![
        graph("accounts", "http://accounts"),
        graph("reviews", "http://reviews"),
    ])])
}

fn request(operation_name: Option<&str>) -> RequestContext {
    RequestContext {
        graphql_request: GraphQLRequest {
            query: "{ me { id } }".to_string(),
            operation_name: operation_name.map(|s| s.to_string()),
            variables: None,
        },
    }
}

fn field(name: &str) -> Selection {
    Selection::Field(Field { alias: None, name: name.to_string(), selections: None })
}

fn fetch(service: &str, operation: &str, requires: Option<Vec<Selection>>) -> PlanNode {
    PlanNode::Fetch(FetchNode {
        service_name: service.to_string(),
        variable_usages: vec![],
        requires,
        operation: operation.to_string(),
    })
}

fn flatten(path: &[&str], node: PlanNode) -> PlanNode {
    PlanNode::Flatten(FlattenNode { path: path.iter().map(|k| k.to_string()).collect(), node: Box::new(node) })
}

fn variables(action: &FetchAction) -> Value {
    to_value(action.request.variables.as_ref().unwrap())
}

#[test]
fn plans_whose_fetches_name_known_services_are_told_apart() {
    let svc = services();
    assert!(plan_services_known(&fetch("accounts", "{ a }", None), &svc));
    assert!(!plan_services_known(&fetch("products", "{ top }", None), &svc));
    let nested = PlanNode::Sequence {
        nodes: vec![
            fetch("accounts", "{ a }", None),
            PlanNode::Parallel { nodes: vec![flatten(&["a"], fetch("products", "{ b }", None))] },
        ],
    };
    assert!(!plan_services_known(&nested, &svc));
    let known = PlanNode::Sequence {
        nodes: vec![fetch("accounts", "{ a }", None), PlanNode::Parallel { nodes: vec![flatten(&["a"], fetch("reviews", "{ b }", None))] }],
    };
    assert!(plan_services_known(&known, &svc));
    assert!(plan_services_known(&PlanNode::Parallel { nodes: vec![] }, &svc));
}

#[test]
fn a_single_fetch_merges_its_answer_into_empty_results() {
    let plan = QueryPlan { node: Some(fetch("accounts", "{ me { id } }", None)) };
    let svc = services();
    let rc = request(Some("Me"));
    let (mut ex, actions) = Executor::start(&plan, &svc, &rc).ok().unwrap();
    assert_eq!(actions.len(), 1);
    assert_eq!(actions[0].id, 0);
    assert_eq!(actions[0].service, "accounts");
    assert_eq!(actions[0].url, "http://accounts");
    assert_eq!(actions[0].request.query, "{ me { id } }");
    assert_eq!(actions[0].request.operation_name, Some("Me".to_string()));
    assert_eq!(variables(&actions[0]), value("{}"));
    assert!(ex.is_waiting(0));
    assert!(!ex.is_done());
    assert_eq!(to_value(ex.results()), value("{}"));
    let answer = parse(r#"{"me": {"id": "1"}}"#);
    let next = ex.on_response(0, Some(&answer)).unwrap();
    assert!(next.is_empty());
    assert!(!ex.is_waiting(0));
    assert!(ex.is_done());
    let response = ex.into_response();
    assert_eq!(to_value(response.data.as_ref().unwrap()), value(r#"{"me": {"id": "1"}}"#));
}

#[test]
fn a_sequence_fetches_entities_for_a_flattened_object() {
    let plan = QueryPlan {
        node: Some(PlanNode::Sequence {
            nodes: vec![
                fetch("accounts", "{ me { __typename id } }", None),
                flatten(
                    &["me"],
                    fetch("reviews", "query($representations: [_Any!]!) { _entities { reviews } }", Some(vec![field("__typename"), field("id")])),
                ),
            ],
        }),
    };
    let svc = services();
    let rc = request(None);
    let (mut ex, actions) = Executor::start(&plan, &svc, &rc).ok().unwrap();
    assert_eq!(actions.len(), 1);
    assert_eq!(actions[0].url, "http://accounts");
    let first = parse(r#"{"me": {"__typename": "User", "id": "1"}}"#);
    let next = ex.on_response(actions[0].id, Some(&first)).unwrap();
    assert_eq!(next.len(), 1);
    assert_eq!(next[0].url, "http://reviews");
    assert_eq!(variables(&next[0]), value(r#"{"representations": [{"__typename": "User", "id": "1"}]}"#));
    assert!(!ex.is_done());
    let second = parse(r#"{"_entities": [{"reviews": ["great"]}]}"#);
    let last = ex.on_response(next[0].id, Some(&second)).unwrap();
    assert!(last.is_empty());
    assert!(ex.is_done());
    assert_eq!(
        to_value(ex.results()),
        value(r#"{"me": {"__typename": "User", "id": "1", "reviews": ["great"]}}"#)
    );
}

#[test]
fn a_flatten_over_an_array_enriches_each_entity() {
    let plan = QueryPlan {
        node: Some(PlanNode::Sequence {
            nodes: vec![
                fetch("accounts", "{ topProducts { __typename isbn } }", None),
                flatten(&["topProducts", "@"], fetch("reviews", "entities", Some(vec![field("__typename"), field("isbn")]))),
            ],
        }),
    };
    let svc = services();
    let rc = request(None);
    let (mut ex, actions) = Executor::start(&plan, &svc, &rc).ok().unwrap();
    let first = parse(r#"{"topProducts": [{"__typename": "Book", "isbn": "1"}, {"__typename": "Book", "isbn": "2"}]}"#);
    let next = ex.on_response(actions[0].id, Some(&first)).unwrap();
    assert_eq!(next.len(), 1);
    assert_eq!(
        variables(&next[0]),
        value(r#"{"representations": [{"__typename": "Book", "isbn": "1"}, {"__typename": "Book", "isbn": "2"}]}"#)
    );
    let second = parse(r#"{"_entities": [{"title": "A"}, {"title": "B"}]}"#);
    assert!(ex.on_response(next[0].id, Some(&second)).unwrap().is_empty());
    assert!(ex.is_done());
    assert_eq!(
        to_value(ex.results()),
        value(r#"{"topProducts": [{"__typename": "Book", "isbn": "1", "title": "A"}, {"__typename": "Book", "isbn": "2", "title": "B"}]}"#)
    );
}

#[test]
fn parallel_fetches_complete_in_any_order() {
    let plan = QueryPlan {
        node: Some(PlanNode::Parallel {
            nodes: vec![fetch("accounts", "{ a }", None), fetch("reviews", "{ b }", None)],
        }),
    };
    let svc = services();
    let rc = request(None);
    let (mut ex, actions) = Executor::start(&plan, &svc, &rc).ok().unwrap();
    assert_eq!(actions.len(), 2);
    assert_eq!(actions[0].url, "http://accounts");
    assert_eq!(actions[1].url, "http://reviews");
    assert!(actions[0].id < actions[1].id);
    let b = parse(r#"{"b": 2}"#);
    assert!(ex.on_response(actions[1].id, Some(&b)).unwrap().is_empty());
    assert!(!ex.is_done());
    assert!(ex.is_waiting(actions[0].id));
    let a = parse(r#"{"a": 1}"#);
    assert!(ex.on_response(actions[0].id, Some(&a)).unwrap().is_empty());
    assert!(ex.is_done());
    assert_eq!(to_value(ex.results()), value(r#"{"a": 1, "b": 2}"#));
}

#[test]
fn a_sequence_after_a_parallel_node_waits_for_every_branch() {
    let plan = QueryPlan {
        node: Some(PlanNode::Sequence {
            nodes: vec![
                PlanNode::Parallel { nodes: vec![fetch("accounts", "{ a }", None), fetch("reviews", "{ b }", None)] },
                fetch("accounts", "{ c }", None),
            ],
        }),
    };
    let svc = services();
    let rc = request(None);
    let (mut ex, actions) = Executor::start(&plan, &svc, &rc).ok().unwrap();
    assert_eq!(actions.len(), 2);
    assert!(ex.on_response(actions[0].id, Some(&parse(r#"{"a": 1}"#))).unwrap().is_empty());
    let next = ex.on_response(actions[1].id, Some(&parse(r#"{"b": 2}"#))).unwrap();
    assert_eq!(next.len(), 1);
    assert_eq!(next[0].request.query, "{ c }");
    assert!(ex.on_response(next[0].id, Some(&parse(r#"{"c": 3}"#))).unwrap().is_empty());
    assert!(ex.is_done());
    assert_eq!(to_value(ex.results()), value(r#"{"a": 1, "b": 2, "c": 3}"#));
}

#[test]
fn a_failed_fetch_leaves_the_results_and_goes_on() {
    let plan = QueryPlan {
        node: Some(PlanNode::Sequence {
            nodes: vec![fetch("accounts", "{ a }", None), fetch("reviews", "{ b }", None)],
        }),
    };
    let svc = services();
    let rc = request(None);
    let (mut ex, actions) = Executor::start(&plan, &svc, &rc).ok().unwrap();
    let next = ex.on_response(actions[0].id, None).unwrap();
    assert_eq!(next.len(), 1);
    assert_eq!(to_value(ex.results()), value("{}"));
    assert!(ex.on_response(next[0].id, Some(&parse(r#"{"b": 2}"#))).unwrap().is_empty());
    assert_eq!(to_value(ex.results()), value(r#"{"b": 2}"#));
}

#[test]
fn an_answer_without_entities_is_refused() {
    let plan = QueryPlan {
        node: Some(PlanNode::Sequence {
            nodes: vec![
                fetch("accounts", "{ me { __typename id } }", None),
                flatten(&["me"], fetch("reviews", "entities", Some(vec![field("__typename"), field("id")]))),
            ],
        }),
    };
    let svc = services();
    let rc = request(None);
    let (mut ex, actions) = Executor::start(&plan, &svc, &rc).ok().unwrap();
    let next = ex.on_response(actions[0].id, Some(&parse(r#"{"me": {"__typename": "User", "id": "1"}}"#))).unwrap();
    assert_eq!(ex.on_response(next[0].id, Some(&parse(r#"{"other": 1}"#))).err(), Some(ExecError::Entities));
}

#[test]
fn a_missing_flatten_path_and_a_missing_required_field_are_refused() {
    let plan = QueryPlan {
        node: Some(PlanNode::Sequence {
            nodes: vec![fetch("accounts", "{ a }", None), flatten(&["me"], fetch("reviews", "entities", None))],
        }),
    };
    let svc = services();
    let rc = request(None);
    let (mut ex, actions) = Executor::start(&plan, &svc, &rc).ok().unwrap();
    assert_eq!(ex.on_response(actions[0].id, Some(&parse(r#"{"a": 1}"#))).err(), Some(ExecError::Flatten));

    let plan = QueryPlan {
        node: Some(PlanNode::Sequence {
            nodes: vec![
                fetch("accounts", "{ me { id } }", None),
                flatten(&["me"], fetch("reviews", "entities", Some(vec![field("__typename"), field("upc")]))),
            ],
        }),
    };
    let (mut ex, actions) = Executor::start(&plan, &svc, &rc).ok().unwrap();
    let result = ex.on_response(actions[0].id, Some(&parse(r#"{"me": {"__typename": "User", "id": "1"}}"#)));
    assert_eq!(result.err(), Some(ExecError::Selection));
}

#[test]
fn plans_without_fetches_finish_at_once() {
    let plan = QueryPlan {
        node: Some(PlanNode::Sequence {
            nodes: vec![PlanNode::Parallel { nodes: vec![] }, PlanNode::Sequence { nodes: vec![] }],
        }),
    };
    let svc = services();
    let rc = request(None);
    let (ex, actions) = Executor::start(&plan, &svc, &rc).ok().unwrap();
    assert!(actions.is_empty());
    assert!(ex.is_done());
    assert_eq!(to_value(ex.results()), value("{}"));
}

#[test]
fn the_plan_is_done_exactly_when_no_fetch_waits() {
    let plan = QueryPlan {
        node: Some(PlanNode::Sequence {
            nodes: vec![
                PlanNode::Parallel {
                    nodes: vec![
                        fetch("accounts", "{ a }", None),
                        PlanNode::Sequence { nodes: vec![fetch("reviews", "{ b }", None), fetch("reviews", "{ c }", None)] },
                    ],
                },
                fetch("accounts", "{ d }", None),
            ],
        }),
    };
    let svc = services();
    let rc = request(None);
    let (mut ex, actions) = Executor::start(&plan, &svc, &rc).ok().unwrap();
    let mut waiting: Vec<usize> = actions.iter().map(|a| a.id).collect();
    let mut answered: usize = 0;
    while let Some(id) = waiting.pop() {
        assert!(!ex.is_done());
        assert!(ex.is_waiting(id));
        let answer = parse(&format!(r#"{{"k{}": {}}}"#, answered, answered));
        answered += 1;
        let next = ex.on_response(id, Some(&answer)).unwrap();
        assert!(!ex.is_waiting(id));
        waiting.extend(next.iter().map(|a| a.id));
        assert_eq!(ex.is_done(), waiting.is_empty());
    }
    assert_eq!(answered, 4);
    assert!(ex.is_done());
    assert_eq!(to_value(ex.results()), value(r#"{"k0": 0, "k1": 1, "k2": 2, "k3": 3}"#));
}

#[test]
fn parallel_answers_are_merged_in_the_order_they_arrive() {
    let plan = QueryPlan {
        node: Some(PlanNode::Parallel {
            nodes: vec![fetch("accounts", "{ a }", None), fetch("reviews", "{ b }", None), fetch("accounts", "{ c }", None)],
        }),
    };
    let svc = services();
    let rc = request(None);
    for (first, second, expected) in [(0usize, 1usize, r#"{"a": 2, "b": 1}"#), (1, 0, r#"{"a": 1, "b": 1}"#)] {
        let (mut ex, actions) = Executor::start(&plan, &svc, &rc).ok().unwrap();
        assert_eq!(actions.len(), 3);
        let answers = [parse(r#"{"a": 1, "b": 1}"#), parse(r#"{"a": 2}"#)];
        let which = [actions[1].id, actions[0].id];
        assert!(ex.on_response(which[first], Some(&answers[first])).unwrap().is_empty());
        assert_eq!(to_value(ex.results()), to_value(&answers[first]));
        assert!(ex.on_response(actions[2].id, None).unwrap().is_empty());
        assert_eq!(to_value(ex.results()), to_value(&answers[first]));
        assert!(!ex.is_done());
        assert!(ex.on_response(which[second], Some(&answers[second])).unwrap().is_empty());
        assert!(ex.is_done());
        assert_eq!(to_value(ex.results()), value(expected));
    }
}

#[test]
fn answers_inside_parallel_branches_reach_the_results() {
    let reviews = || {
        flatten(
            &["me"],
            fetch("reviews", "query($representations: [_Any!]!) { _entities { reviews } }", Some(vec![field("__typename"), field("id")])),
        )
    };
    let plan = QueryPlan {
        node: Some(PlanNode::Sequence {
            nodes: vec![
                fetch("accounts", "{ me { __typename id } }", None),
                PlanNode::Parallel {
                    nodes: vec![
                        reviews(),
                        PlanNode::Sequence { nodes: vec![fetch("accounts", "{ a }", None), fetch("accounts", "{ b }", None)] },
                    ],
                },
            ],
        }),
    };
    let svc = services();
    let rc = request(None);
    let (mut ex, actions) = Executor::start(&plan, &svc, &rc).ok().unwrap();
    let next = ex.on_response(actions[0].id, Some(&parse(r#"{"me": {"__typename": "User", "id": "1"}}"#))).unwrap();
    assert_eq!(next.len(), 2);
    let then = ex.on_response(next[1].id, Some(&parse(r#"{"a": 1}"#))).unwrap();
    assert_eq!(then.len(), 1);
    assert_eq!(then[0].request.query, "{ b }");
    assert!(ex.on_response(next[0].id, Some(&parse(r#"{"_entities": [{"reviews": ["great"]}]}"#))).unwrap().is_empty());
    assert!(!ex.is_done());
    assert!(ex.on_response(then[0].id, None).unwrap().is_empty());
    assert!(ex.is_done());
    assert_eq!(
        to_value(ex.results()),
        value(r#"{"me": {"__typename": "User", "id": "1", "reviews": ["great"]}, "a": 1}"#)
    );
}
