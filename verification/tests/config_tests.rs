use restcli::config::{schema_depth_ok, API};

fn api(path: &str) -> API {
    API { path: path.to_string(), is_entity: None, jsonpath: None, apis: None }
}

fn chain(depth: usize) -> API {
    let mut node = api("/leaf");
    for _ in 1..depth {
        node = API {
            path: "/x".to_string(),
            is_entity: None,
            jsonpath: None,
            apis: Some(vec![node]),
        };
    }
    node
}

#[test]
fn test_schema_depth_within_limit() {
    assert!(schema_depth_ok(&vec![api("/a"), api("/a/b/c")]));
    assert!(schema_depth_ok(&vec![chain(16)]));
    assert!(schema_depth_ok(&Vec::new()));
}

#[test]
fn test_schema_depth_exceeding_limit() {
    assert!(!schema_depth_ok(&vec![chain(17)]));
}
