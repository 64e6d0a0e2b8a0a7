use aws_model_query::document::{load_service, query_shapes};
use aws_model_query::model::{ModelError, Service, Structure};
use aws_model_query::parse::{parse_document, query_document, digit_runs_ok};
use aws_model_query::report::{report, LineKind, ReportLine};
use aws_model_query::text::{has_marker, is_model_name, is_tag_member};
use aws_model_query::tree::{get_field, Node};

fn lines(r: &[ReportLine]) -> Vec<(LineKind, String)> {
    r.iter().map(|l| (l.kind, l.text.clone())).collect()
}

fn run(text: &str) -> Vec<(LineKind, String)> {
    match query_document(text) {
        Ok(r) => lines(&r),
        Err(e) => panic!("unexpected error: {:?}", describe(&e)),
    }
}

fn describe(e: &ModelError) -> String {
    match e {
        ModelError::MalformedShape(n) => format!("malformed {}", n),
        ModelError::UnresolvedReference(n) => format!("unresolved {}", n),
        ModelError::ParseError => "parse".to_string(),
    }
}

fn line(kind: LineKind, text: &str) -> (LineKind, String) {
    (kind, text.to_string())
}

#[test]
fn end_to_end_scenario() {
    let doc = r#"{"shapes": {
        "S": {"type": "service"},
        "S#Op": {"type": "structure", "members": {"TagKey": {"target": "string"}}},
        "S#ListThings": {"type": "operation", "input": {"target": "S#Op"}}
    }}"#;
    assert_eq!(
        run(doc),
        vec![
            line(LineKind::Service, "S"),
            line(LineKind::Operation, "S#ListThings"),
            line(LineKind::TagFilter, "TagKey"),
        ]
    );
}

#[test]
fn single_service_reported_once() {
    let doc = r#"{"shapes": {"a#Svc": {"type": "service"}, "a#X": {"type": "string"}}}"#;
    assert_eq!(run(doc), vec![line(LineKind::Service, "a#Svc")]);
    let tree = parse_document(doc).ok().unwrap();
    let svc = load_service(&tree).ok().unwrap();
    assert_eq!(svc.name, "a#Svc");
}

#[test]
fn no_service_keeps_placeholder_name() {
    let tree = parse_document(r#"{"shapes": {}}"#).ok().unwrap();
    let svc = load_service(&tree).ok().unwrap();
    assert_eq!(svc.name, "UNKNOWN");
    assert!(svc.operations.is_empty());
    assert!(svc.structures.is_empty());
}

#[test]
fn last_service_wins() {
    let doc = r#"{"shapes": {"A": {"type": "service"}, "B": {"type": "service"}}}"#;
    let tree = parse_document(doc).ok().unwrap();
    assert_eq!(load_service(&tree).ok().unwrap().name, "B");
    assert_eq!(run(doc), vec![line(LineKind::Service, "A"), line(LineKind::Service, "B")]);
}

#[test]
fn resolved_input_keeps_declared_members() {
    let doc = r#"{"shapes": {
        "n#In": {"type": "structure", "members": {"A": {"target": "n#T1"}, "B": {"target": "n#T2"}}},
        "n#Op": {"type": "operation", "input": {"target": "n#In"}, "output": {"target": "n#In"}}
    }}"#;
    let tree = parse_document(doc).ok().unwrap();
    let svc = load_service(&tree).ok().unwrap();
    assert_eq!(svc.operations.len(), 1);
    let op = &svc.operations[0];
    assert_eq!(op.input.as_deref(), Some("n#In"));
    assert_eq!(op.output.as_deref(), Some("n#In"));
    let st = svc.structure_named(&"n#In".to_string()).unwrap();
    let mut members = st.members.clone();
    members.sort();
    assert_eq!(
        members,
        vec![("A".to_string(), "n#T1".to_string()), ("B".to_string(), "n#T2".to_string())]
    );
}

#[test]
fn operations_before_structures_resolve_the_same() {
    let ops_first = r#"{"shapes": {
        "n#ListA": {"type": "operation", "input": {"target": "n#In"}},
        "n#In": {"type": "structure", "members": {"tags": {"target": "n#T"}}}
    }}"#;
    let ops_last = r#"{"shapes": {
        "n#In": {"type": "structure", "members": {"tags": {"target": "n#T"}}},
        "n#ListA": {"type": "operation", "input": {"target": "n#In"}}
    }}"#;
    let expected = vec![line(LineKind::Operation, "n#ListA"), line(LineKind::TagFilter, "tags")];
    assert_eq!(run(ops_first), expected);
    assert_eq!(run(ops_last), expected);
}

#[test]
fn both_markers_reported_twice() {
    let doc = r#"{"shapes": {"n#ListAndDescribe#ListX#DescribeY": {"type": "operation"}}}"#;
    let name = "n#ListAndDescribe#ListX#DescribeY";
    assert_eq!(run(doc), vec![line(LineKind::Operation, name), line(LineKind::Operation, name)]);
}

#[test]
fn list_operations_come_before_describe_operations() {
    let doc = r#"{"shapes": {"n#DescribeA": {"type": "operation"}, "n#ListB": {"type": "operation"}, "n#GetC": {"type": "operation"}}}"#;
    assert_eq!(
        run(doc),
        vec![line(LineKind::Operation, "n#ListB"), line(LineKind::Operation, "n#DescribeA")]
    );
}

#[test]
fn tag_prefix_is_case_insensitive() {
    assert!(is_tag_member(&"Tags".to_string()));
    assert!(is_tag_member(&"tagKey".to_string()));
    assert!(is_tag_member(&"TAG_ID".to_string()));
    assert!(!is_tag_member(&"Targets".to_string()));
    assert!(!is_tag_member(&"ta".to_string()));
    assert!(!is_tag_member(&"xTag".to_string()));
}

#[test]
fn tag_members_reported_and_targets_not() {
    let doc = r#"{"shapes": {
        "n#In": {"type": "structure", "members": {
            "Tags": {"target": "t"}, "tagKey": {"target": "t"}, "TAG_ID": {"target": "t"}, "Targets": {"target": "t"}
        }},
        "n#ListX": {"type": "operation", "input": {"target": "n#In"}}
    }}"#;
    let out = run(doc);
    assert_eq!(out[0], line(LineKind::Operation, "n#ListX"));
    let mut tags: Vec<String> = out[1..].iter().map(|(k, t)| {
        assert_eq!(*k, LineKind::TagFilter);
        t.clone()
    }).collect();
    tags.sort();
    assert_eq!(tags, vec!["TAG_ID".to_string(), "Tags".to_string(), "tagKey".to_string()]);
}

#[test]
fn operation_without_input_has_no_tag_lines() {
    let doc = r#"{"shapes": {
        "n#Out": {"type": "structure", "members": {"Tags": {"target": "t"}}},
        "n#ListX": {"type": "operation", "output": {"target": "n#Out"}}
    }}"#;
    assert_eq!(run(doc), vec![line(LineKind::Operation, "n#ListX")]);
}

#[test]
fn unresolved_reference_fails_document() {
    let doc = r#"{"shapes": {"S": {"type": "service"}, "n#ListX": {"type": "operation", "input": {"target": "n#Missing"}}}}"#;
    match query_document(doc) {
        Err(ModelError::UnresolvedReference(r)) => assert_eq!(r, "n#Missing"),
        other => panic!("expected an unresolved reference, got {:?}", other.err().map(|e| describe(&e))),
    }
}

#[test]
fn unresolved_output_reference_fails_document() {
    let doc = r#"{"shapes": {"n#In": {"type": "structure"}, "n#X": {"type": "operation", "input": {"target": "n#In"}, "output": {"target": "n#Gone"}}}}"#;
    match query_document(doc) {
        Err(ModelError::UnresolvedReference(r)) => assert_eq!(r, "n#Gone"),
        other => panic!("expected an unresolved reference, got {:?}", other.err().map(|e| describe(&e))),
    }
}

#[test]
fn shape_without_type_is_malformed() {
    let doc = r#"{"shapes": {"n#A": {"type": "service"}, "n#B": {"members": {}}}}"#;
    match query_document(doc) {
        Err(ModelError::MalformedShape(n)) => assert_eq!(n, "n#B"),
        other => panic!("expected a malformed shape, got {:?}", other.err().map(|e| describe(&e))),
    }
}

#[test]
fn member_without_target_is_malformed() {
    let doc = r#"{"shapes": {"n#S": {"type": "structure", "members": {"A": {"other": "x"}}}}}"#;
    match query_document(doc) {
        Err(ModelError::MalformedShape(n)) => assert_eq!(n, "n#S"),
        other => panic!("expected a malformed shape, got {:?}", other.err().map(|e| describe(&e))),
    }
}

#[test]
fn invalid_json_is_a_parse_error() {
    assert!(matches!(query_document("{\"shapes\": "), Err(ModelError::ParseError)));
    assert!(matches!(parse_document("not json"), Err(ModelError::ParseError)));
}

#[test]
fn unknown_kinds_and_missing_members_are_accepted() {
    let doc = r#"{"shapes": {"n#R": {"type": "resource"}, "n#E": {"type": "structure"}, "n#ListE": {"type": "operation", "input": {"target": "n#E"}}}}"#;
    assert_eq!(run(doc), vec![line(LineKind::Operation, "n#ListE")]);
}

#[test]
fn duplicate_member_keeps_one_entry() {
    let mut st = Structure::new("n#S".to_string());
    st.insert_member("Tag".to_string(), "a".to_string());
    st.insert_member("Other".to_string(), "b".to_string());
    st.insert_member("Tag".to_string(), "c".to_string());
    assert_eq!(
        st.members,
        vec![("Tag".to_string(), "c".to_string()), ("Other".to_string(), "b".to_string())]
    );
}

#[test]
fn tree_built_by_hand_gives_same_report() {
    let member = Node::Object(vec![("target".to_string(), Node::Str("string".to_string()))]);
    let st = Node::Object(vec![
        ("type".to_string(), Node::Str("structure".to_string())),
        ("members".to_string(), Node::Object(vec![("TagKey".to_string(), member)])),
    ]);
    let op = Node::Object(vec![
        ("type".to_string(), Node::Str("operation".to_string())),
        ("input".to_string(), Node::Object(vec![("target".to_string(), Node::Str("S#Op".to_string()))])),
    ]);
    let svc = Node::Object(vec![("type".to_string(), Node::Str("service".to_string()))]);
    let doc = Node::Object(vec![(
        "shapes".to_string(),
        Node::Object(vec![("S".to_string(), svc), ("S#Op".to_string(), st), ("S#ListThings".to_string(), op)]),
    )]);
    assert!(get_field(&doc, "shapes").is_some());
    assert!(get_field(&doc, "nothing").is_none());
    let out = lines(&query_shapes(&doc).ok().unwrap());
    assert_eq!(
        out,
        vec![
            line(LineKind::Service, "S"),
            line(LineKind::Operation, "S#ListThings"),
            line(LineKind::TagFilter, "TagKey"),
        ]
    );
}

#[test]
fn report_of_fresh_service_is_empty() {
    let svc = Service::new();
    assert!(report(&svc).is_empty());
}

#[test]
fn marker_search_finds_inner_text() {
    assert!(has_marker(&"aws#ListBuckets".to_string(), "#List"));
    assert!(!has_marker(&"aws#GetBucket".to_string(), "#List"));
    assert!(!has_marker(&"#Lis".to_string(), "#List"));
}

#[test]
fn long_digit_runs_are_refused_before_parsing() {
    let ok = format!("{{\"shapes\": {{}}, \"n\": 0.{}}}", "0".repeat(32767));
    let too_long = format!("{{\"shapes\": {{}}, \"n\": 0.{}}}", "0".repeat(32768));
    assert!(digit_runs_ok(&ok));
    assert!(!digit_runs_ok(&too_long));
    assert!(digit_runs_ok(""));
    assert!(digit_runs_ok("100200"));
    let zeros_then_digits = format!("{{\"n\": 0.{}12}}", "0".repeat(32767));
    assert!(!digit_runs_ok(&zeros_then_digits));
    let long_integer = format!("{{\"n\": {}}}", "7".repeat(32768));
    assert!(!digit_runs_ok(&long_integer));
    let split_by_point = format!("{{\"n\": {}.{}}}", "1".repeat(32767), "2".repeat(32767));
    assert!(digit_runs_ok(&split_by_point));
    assert!(query_document(&ok).is_ok());
}

#[test]
fn model_file_name_is_exact() {
    assert!(is_model_name("model.json"));
    assert!(!is_model_name("model.json.bak"));
    assert!(!is_model_name("Model.json"));
}
