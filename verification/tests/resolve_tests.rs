use restcli::config::API;
use restcli::resolve::{sort_take, FetchOutcome, Resolver, ResolveStep};
use restcli::session::{records_sorted, ResolveDone, CLI};
use restcli::value::Value;

fn api(path: &str) -> API {
    API { path: path.to_string(), is_entity: None, jsonpath: None, apis: None }
}

fn text(s: &str) -> Value {
    Value::Text(s.to_string())
}

fn mapping(entries: Vec<(&str, Value)>) -> Value {
    Value::Object(entries.into_iter().map(|(k, v)| (k.to_string(), v)).collect())
}

/// Drive the machine until it wants a fetch, finishes or fails.
fn advance(r: &mut Resolver) -> ResolveStep {
    let mut step = r.step(None);
    loop {
        match step {
            ResolveStep::Working => {
                step = r.step(None);
            }
            other => return other,
        }
    }
}

fn answer(r: &mut Resolver, out: FetchOutcome) -> ResolveStep {
    let mut step = r.step(Some(out));
    loop {
        match step {
            ResolveStep::Working => {
                step = r.step(None);
            }
            other => return other,
        }
    }
}

#[test]
fn test_resolve_flattens_mapping_entries() {
    let mut r = Resolver::new(vec![api("/langs")], "/".to_string());
    match advance(&mut r) {
        ResolveStep::Call(c) => {
            assert_eq!(c.path, "/langs");
            assert!(c.expr.is_none());
        }
        _ => panic!("expected a fetch"),
    }
    let done = answer(
        &mut r,
        FetchOutcome::Payload(mapping(vec![("go", text("fast")), ("rust", text("safe"))])),
    );
    match done {
        ResolveStep::Done(d) => {
            assert!(!d.more);
            assert_eq!(d.root, "/");
            let got: Vec<&str> = d.records.iter().map(|(p, _)| p.as_str()).collect();
            assert_eq!(got, vec!["/go", "/rust"]);
        }
        _ => panic!("expected completion"),
    }
}

#[test]
fn test_resolve_scalar_payload_single_leaf_record() {
    // a payload that is not a mapping (for example an extraction
    // expression selecting a scalar) yields exactly the one record
    // for the node itself and never recurses
    let mut r = Resolver::new(
        vec![API {
            path: "/version".to_string(),
            is_entity: None,
            jsonpath: Some(restcli::config::JsonPath("$.v".to_string())),
            apis: Some(vec![api("/sub")]),
        }],
        "/".to_string(),
    );
    match advance(&mut r) {
        ResolveStep::Call(c) => {
            assert_eq!(c.path, "/version");
            assert_eq!(c.expr.as_deref(), Some("$.v"));
        }
        _ => panic!("expected a fetch"),
    }
    match answer(&mut r, FetchOutcome::Payload(text("1.2"))) {
        ResolveStep::Done(d) => {
            assert_eq!(d.records.len(), 1);
            assert_eq!(d.records[0].0, "/version");
        }
        _ => panic!("expected completion"),
    }
}

#[test]
fn test_resolve_no_match_yields_no_records() {
    let mut r = Resolver::new(vec![api("/a")], "/".to_string());
    advance(&mut r);
    match answer(&mut r, FetchOutcome::NoMatch) {
        ResolveStep::Done(d) => assert!(d.records.is_empty()),
        _ => panic!("expected completion"),
    }
}

#[test]
fn test_resolve_recurses_into_children() {
    let mut r = Resolver::new(
        vec![API {
            path: "/langs".to_string(),
            is_entity: None,
            jsonpath: None,
            apis: Some(vec![api("/details")]),
        }],
        "/".to_string(),
    );
    advance(&mut r);
    let step = answer(
        &mut r,
        FetchOutcome::Payload(mapping(vec![("go", text("fast")), ("rust", text("safe"))])),
    );
    match step {
        ResolveStep::Call(c) => assert_eq!(c.path, "/go/details"),
        _ => panic!("expected the child fetch"),
    }
    match answer(&mut r, FetchOutcome::Payload(text("42"))) {
        ResolveStep::Call(c) => assert_eq!(c.path, "/rust/details"),
        _ => panic!("expected the second child fetch"),
    }
    match answer(&mut r, FetchOutcome::Payload(text("43"))) {
        ResolveStep::Done(d) => {
            let got: Vec<&str> = d.records.iter().map(|(p, _)| p.as_str()).collect();
            assert_eq!(got, vec!["/go", "/go/details", "/rust", "/rust/details"]);
        }
        _ => panic!("expected completion"),
    }
}

#[test]
fn test_resolve_entity_defers_expansion() {
    let mut r = Resolver::new(
        vec![API {
            path: "/langs".to_string(),
            is_entity: Some(true),
            jsonpath: None,
            apis: Some(vec![api("/details")]),
        }],
        "/".to_string(),
    );
    advance(&mut r);
    let step = answer(
        &mut r,
        FetchOutcome::Payload(mapping(vec![("go", text("fast")), ("rust", text("safe"))])),
    );
    match step {
        ResolveStep::Done(d) => {
            // nothing expanded, but the pass reports that more is
            // available
            assert!(d.more);
            let got: Vec<&str> = d.records.iter().map(|(p, _)| p.as_str()).collect();
            assert_eq!(got, vec!["/go", "/rust"]);
        }
        _ => panic!("expected completion without child fetches"),
    }
}

#[test]
fn test_resolve_entity_expands_navigation_target() {
    let mut r = Resolver::new(
        vec![API {
            path: "/langs".to_string(),
            is_entity: Some(true),
            jsonpath: None,
            apis: Some(vec![api("/details")]),
        }],
        "/rust".to_string(),
    );
    advance(&mut r);
    let step = answer(
        &mut r,
        FetchOutcome::Payload(mapping(vec![("go", text("fast")), ("rust", text("safe"))])),
    );
    match step {
        ResolveStep::Call(c) => assert_eq!(c.path, "/rust/details"),
        _ => panic!("only the targeted sibling expands"),
    }
}

#[test]
fn test_resolve_encodes_separator_in_keys() {
    let mut r = Resolver::new(vec![api("/langs")], "/".to_string());
    advance(&mut r);
    match answer(&mut r, FetchOutcome::Payload(mapping(vec![("C/C++", text("old"))]))) {
        ResolveStep::Done(d) => {
            assert_eq!(d.records[0].0, "/C%2FC++");
        }
        _ => panic!("expected completion"),
    }
}

#[test]
fn test_resolve_failure_leaves_session_untouched() {
    // a pass that fails on the third of five sibling fetches leaves
    // the previously displayed list and the cursor exactly as they
    // were
    let shown = vec![("/kept".to_string(), Value::Null)];
    assert!(records_sorted(&shown));
    let mut cli = CLI::new(
        "http://localhost/".to_string(),
        Vec::new(),
        ResolveDone { more: false, root: "/".to_string(), records: shown },
    );
    cli.current_path = "/kept".to_string();

    let apis = vec![api("/a"), api("/b"), api("/c"), api("/d"), api("/e")];
    let mut r = Resolver::new(apis, cli.current_path.clone());
    advance(&mut r);
    answer(&mut r, FetchOutcome::Payload(text("1")));
    answer(&mut r, FetchOutcome::Payload(text("2")));
    match r.step(Some(FetchOutcome::Error("connection reset".to_string()))) {
        ResolveStep::Failed(msg) => assert_eq!(msg, "connection reset"),
        _ => panic!("the pass must fail fast"),
    }
    assert!(r.finished);
    // nothing reached the session: list and cursor are unchanged
    assert_eq!(cli.records.len(), 1);
    assert_eq!(cli.records[0].0, "/kept");
    assert_eq!(cli.current_path, "/kept");
}

#[test]
fn test_sort_take_drops_duplicate_paths() {
    // the flat list never duplicates a path: one record per path
    // survives the sort
    let mut v = vec![
        ("/k".to_string(), Value::Number("1".to_string())),
        ("/a".to_string(), Value::Null),
        ("/k".to_string(), Value::Number("2".to_string())),
    ];
    let sorted = sort_take(&mut v);
    let got: Vec<&str> = sorted.iter().map(|(p, _)| p.as_str()).collect();
    assert_eq!(got, vec!["/a", "/k"]);
}

#[test]
fn test_sort_take_orders_records() {
    let mut v = vec![
        ("/b".to_string(), Value::Null),
        ("/a/x".to_string(), Value::Null),
        ("/a".to_string(), Value::Null),
    ];
    let sorted = sort_take(&mut v);
    let got: Vec<&str> = sorted.iter().map(|(p, _)| p.as_str()).collect();
    assert_eq!(got, vec!["/a", "/a/x", "/b"]);
    assert!(records_sorted(&sorted));
    assert!(v.is_empty());
}
