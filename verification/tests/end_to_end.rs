use restcli::config::API;
use restcli::resolve::{FetchOutcome, Resolver, ResolveStep};
use restcli::session::{records_sorted, Action, CLI};
use restcli::value::Value;

fn obj(entries: Vec<(&str, Value)>) -> Value {
    Value::Object(entries.into_iter().map(|(k, v)| (k.to_string(), v)).collect())
}

#[test]
fn test_resolve_then_browse() {
    let apis = vec![API {
        path: "/langs".to_string(),
        is_entity: None,
        jsonpath: None,
        apis: None,
    }];
    let mut machine = Resolver::new(apis, "/".to_string());
    let mut reply: Option<FetchOutcome> = None;
    let done = loop {
        match machine.step(reply.take()) {
            ResolveStep::Working => {}
            ResolveStep::Call(call) => {
                assert_eq!(call.path, "/langs");
                reply = Some(FetchOutcome::Payload(obj(vec![
                    (
                        "go",
                        obj(vec![
                            ("year", Value::Number("2009".to_string())),
                            ("fast", Value::Bool(true)),
                        ]),
                    ),
                    ("rust", obj(vec![("year", Value::Number("2015".to_string()))])),
                ])));
            }
            ResolveStep::Done(done) => break done,
            ResolveStep::Failed(msg) => panic!("resolve failed: {}", msg),
        }
    };
    assert!(records_sorted(&done.records));
    let mut cli = CLI::new("http://localhost/".to_string(), Vec::new(), done);

    match cli.run("list") {
        Action::Output(text) => {
            assert_eq!(text, "/go:\n  year 2009\n  fast yes\n/rust:\n  year 2015\n")
        }
        _ => panic!("list must produce output"),
    }

    assert!(matches!(cli.run("cd go"), Action::Nothing));
    assert_eq!(cli.current_path, "/go");
    match cli.run("list") {
        Action::Output(text) => assert_eq!(text, "/go:\n  year 2009\n  fast yes\n"),
        _ => panic!("list must produce output"),
    }

    assert!(matches!(cli.run("cd .."), Action::Nothing));
    assert_eq!(cli.current_path, "/");
    assert!(matches!(cli.run("exit"), Action::Quit));
}
