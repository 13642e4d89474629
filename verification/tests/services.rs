use stargate::gateway::{has_clean_indents, LoadError, Stargate};
use stargate::services::{
    directive_args_as_map, get_service_list, try_directive_args_as_map, try_get_service_list, ArgValue,
    Definition, Directive,
};

const SCHEMA: &str = r#"
schema @graph(name: "accounts", url: "http://localhost:4001") @graph(name: "reviews", url: "http://localhost:4002") @other(x: 1) {
  query: Query
}

type Query {
  me: User
}

type User {
  id: ID!
}
"#;

fn graph(args: &[(&str, Option<&str>)]) -> Directive {
    Directive {
        name: "graph".to_string(),
        arguments: args
            .iter()
            .map(|(k, v)| {
                (
                    k.to_string(),
                    match v {
                        Some(s) => ArgValue::String(s.to_string()),
                        None => ArgValue::Other,
                    },
                )
            })
            .collect(),
    }
}

#[test]
fn stargate_reads_services_from_graph_directives() {
    let gateway = Stargate::new(SCHEMA);
    assert_eq!(gateway.schema, SCHEMA);
    assert_eq!(gateway.service_list().len(), 2);
    assert_eq!(gateway.service_url(&"accounts".to_string()), Some("http://localhost:4001".to_string()));
    assert_eq!(gateway.service_url(&"reviews".to_string()), Some("http://localhost:4002".to_string()));
    assert_eq!(gateway.service_url(&"products".to_string()), None);
    let (name, url) = gateway.service_list().entry(0);
    assert_eq!((name.as_str(), url.as_str()), ("accounts", "http://localhost:4001"));
}

#[test]
fn stargate_reports_why_a_schema_does_not_load() {
    assert!(matches!(Stargate::try_new("schema {"), Err(LoadError::SchemaParse)));
    assert!(matches!(Stargate::try_new("type Query { a: Int }"), Err(LoadError::ServiceList)));
    assert!(matches!(
        Stargate::try_new(r#"schema @graph(name: "a") { query: Query }"#),
        Err(LoadError::ServiceList)
    ));
    assert!(matches!(
        Stargate::try_new(r#"schema @graph(name: "a", url: 3) { query: Query }"#),
        Err(LoadError::ServiceList)
    ));
    assert!(Stargate::try_new(SCHEMA).is_ok());
}

#[test]
fn the_last_schema_definition_counts_and_later_graphs_override() {
    let defs = vec![
        Definition::Schema(vec![graph(&[("name", Some("a")), ("url", Some("u1"))])]),
        Definition::Other,
        Definition::Schema(vec![
            graph(&[("name", Some("b")), ("url", Some("u2"))]),
            graph(&[("url", Some("u3")), ("name", Some("b"))]),
            Directive { name: "other".to_string(), arguments: vec![] },
        ]),
        Definition::Other,
    ];
    let list = get_service_list(&defs);
    assert_eq!(list.len(), 1);
    assert_eq!(list.url_of(&"b".to_string()), Some("u3".to_string()));
    assert_eq!(list.url_of(&"a".to_string()), None);
}

#[test]
fn a_malformed_service_list_gives_none() {
    assert!(try_get_service_list(&vec![Definition::Other]).is_none());
    assert!(try_get_service_list(&vec![]).is_none());
    assert!(try_get_service_list(&vec![Definition::Schema(vec![graph(&[("name", Some("a"))])])]).is_none());
    assert!(try_get_service_list(&vec![Definition::Schema(vec![graph(&[("name", None), ("url", Some("u"))])])]).is_none());
    assert_eq!(try_get_service_list(&vec![Definition::Schema(vec![])]).unwrap().len(), 0);
}

#[test]
fn directive_arguments_as_a_map() {
    let d = graph(&[("name", Some("a")), ("url", Some("u")), ("name", Some("c"))]);
    let m = directive_args_as_map(&d.arguments);
    assert_eq!(m.len(), 2);
    assert_eq!(m.url_of(&"name".to_string()), Some("c".to_string()));
    assert!(try_directive_args_as_map(&graph(&[("x", None)]).arguments).is_none());
}

#[test]
fn indents_that_would_cut_a_character_are_told_apart() {
    assert!(has_clean_indents(SCHEMA));
    assert!(has_clean_indents("a\u{a0}b\n  c \u{3000}"));
    assert!(!has_clean_indents("\"\"\"\n\u{a0}a\n \u{3000}b\n\"\"\"\ntype Query { a: String }"));
    assert!(has_clean_indents("type Query {\n \t\u{2003}a: Int }"));
    assert!(has_clean_indents("\"\"\"\n\u{3000}a\n\u{3000}b\n\"\"\"\ntype Query { a: String }"));
    assert!(!has_clean_indents("x\n\u{3000}a\n  b"));
}
