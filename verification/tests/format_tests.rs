use restcli::format::{decode_path, Context, Formatter, Keywords};
use restcli::value::Value;

fn obj(entries: Vec<(&str, Value)>) -> Value {
    Value::Object(entries.into_iter().map(|(k, v)| (k.to_string(), v)).collect())
}

fn text(s: &str) -> Value {
    Value::Text(s.to_string())
}

#[test]
fn test_decode_path_plain() {
    assert_eq!(decode_path("/languages"), "/languages");
    assert_eq!(decode_path("/a%20b"), "/a b");
}

#[test]
fn test_decode_path_ambiguous_separator() {
    // a chunk decoding to a separator switches the whole label to the
    // visible joiner
    assert_eq!(decode_path("/a%2Fb"), ".a/b");
    assert_eq!(decode_path("/C%2FC++"), ".C/C++");
}

#[test]
fn test_context_defaults() {
    let ctx = Context::default();
    assert_eq!(ctx.indent_width, 2);
    assert_eq!(ctx.yes_word, "yes");
    assert_eq!(ctx.no_word, "no");
    let made = Context::new(4, "ja".to_string(), "nein".to_string(), Keywords::Keep);
    assert_eq!(made.indent_width, 4);
    assert_eq!(made.yes_word, "ja");
}

#[test]
fn test_format_scalars_under_leaf_group() {
    let records = vec![(
        "/languages/go".to_string(),
        obj(vec![("fast", Value::Bool(true)), ("year", Value::Number("2009".to_string()))]),
    )];
    let out = Formatter::new(&records, Keywords::Keep).fmt();
    assert_eq!(out, "/languages/go:\n  fast yes\n  year 2009\n");
}

#[test]
fn test_format_boolean_words() {
    let records = vec![(
        "/x".to_string(),
        obj(vec![("on", Value::Bool(true)), ("off", Value::Bool(false)), ("gone", Value::Null)]),
    )];
    let out = Formatter::new(&records, Keywords::Keep).fmt();
    assert_eq!(out, "/x:\n  on yes\n  off no\n  gone\n");
}

#[test]
fn test_format_simple_list_singularized() {
    let records = vec![("/x".to_string(), obj(vec![("apps", Value::Array(vec![text("a"), text("b")]))]))];
    let out = Formatter::new(&records, Keywords::TrimEnd('s')).fmt();
    assert_eq!(out, "/x:\n  app a\n  app b\n");
}

#[test]
fn test_format_structured_list_markers() {
    let records = vec![(
        "/x".to_string(),
        obj(vec![("items", Value::Array(vec![text("a"), obj(vec![("k", Value::Null)])]))]),
    )];
    let out = Formatter::new(&records, Keywords::Keep).fmt();
    assert_eq!(out, "/x:\n  items\n    !\n    a\n    !\n      k\n    !\n");
}

#[test]
fn test_format_grouped_headers_and_labels() {
    let records = vec![
        ("/go".to_string(), Value::Null),
        ("/languages/go".to_string(), text("fast")),
        ("/languages/rust".to_string(), text("safe")),
    ];
    let out = Formatter::new(&records, Keywords::Keep).fmt();
    // "/go" closes as a leaf group; a bare scalar record under a
    // label prints nothing of its own
    assert_eq!(out, "/go:\n\n/languages\n");
}

#[test]
fn test_format_nested_mapping_indent() {
    let records = vec![(
        "/x".to_string(),
        obj(vec![("outer", obj(vec![("inner", text("v"))]))]),
    )];
    let out = Formatter::new(&records, Keywords::Keep).fmt();
    assert_eq!(out, "/x:\n  outer\n    inner v\n");
}

#[test]
fn test_format() {
    let records = vec![
        (
            "/languages/go".to_string(),
            obj(vec![
                (
                    "applications",
                    Value::Array(vec![text("kubernetes"), text("terraform")]),
                ),
                ("year", Value::Number("2009".to_string())),
            ]),
        ),
        ("/languages/rust".to_string(), obj(vec![("fast", Value::Bool(true))])),
    ];
    let output = Formatter::new(&records, Keywords::TrimEnd('s')).fmt();
    let expected = "/languages\n  /go:\n    application kubernetes\n    application terraform\n    year 2009\n  /rust:\n    fast yes\n";
    assert_eq!(expected, output);
}

#[test]
fn test_format_range_renders_only_selection() {
    let records = vec![
        ("/a".to_string(), obj(vec![("k", text("1"))])),
        ("/b".to_string(), obj(vec![("k", text("2"))])),
    ];
    let out = Formatter::new_range(&records, 1, 2, Keywords::Keep).fmt();
    assert_eq!(out, "/b:\n  k 2\n");
}
