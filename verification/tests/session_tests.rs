use restcli::session::{locate, range, records_sorted, Action, CdOutcome, ResolveDone, CLI};
use restcli::value::Value;

fn recs(v: &[&str]) -> Vec<(String, Value)> {
    v.iter().map(|s| (s.to_string(), Value::Null)).collect()
}

fn cli_over(records: Vec<(String, Value)>) -> CLI {
    assert!(records_sorted(&records));
    CLI::new(
        "http://localhost/".to_string(),
        Vec::new(),
        ResolveDone { more: false, root: "/".to_string(), records },
    )
}

#[test]
fn test_locate_lower_bound() {
    let records = recs(&["/ab", "/b", "/b/c", "/b/x", "/bc"]);
    assert_eq!(locate(&records, "/b"), 1);
    assert_eq!(locate(&records, "/b/"), 2);
    assert_eq!(locate(&records, "/a"), 0);
    assert_eq!(locate(&records, "/z"), 5);
}

#[test]
fn test_range_exactly_the_matching_records() {
    let records = recs(&["/ab", "/b", "/b/c", "/b/x", "/bc"]);
    // boundary check: the adjacent records "/b" and "/bc" stay out
    assert_eq!(range(&records, "/b/"), (2, 4));
    // the bare "/b" prefix also covers "/b" itself and "/bc"
    assert_eq!(range(&records, "/b"), (1, 5));
    assert_eq!(range(&records, "/zzz"), (5, 5));
}

#[test]
fn test_cd_parent_steps() {
    let mut cli = cli_over(recs(&["/a/b/c"]));
    cli.current_path = "/a/b/".to_string();
    assert_eq!(cli.change_directory(".."), CdOutcome::Changed);
    assert_eq!(cli.current_path, "/a/");
    assert_eq!(cli.change_directory(".."), CdOutcome::Changed);
    assert_eq!(cli.current_path, "/");
    // from the root the parent step stays at the root
    assert_eq!(cli.change_directory(".."), CdOutcome::Changed);
    assert_eq!(cli.current_path, "/");
}

#[test]
fn test_cd_relative_and_absolute() {
    let mut cli = cli_over(recs(&["/a", "/a/b", "/x"]));
    assert_eq!(cli.change_directory("a"), CdOutcome::Changed);
    assert_eq!(cli.current_path, "/a");
    assert_eq!(cli.change_directory("b"), CdOutcome::Changed);
    assert_eq!(cli.current_path, "/a/b");
    assert_eq!(cli.change_directory("/x"), CdOutcome::Changed);
    assert_eq!(cli.current_path, "/x");
}

#[test]
fn test_cd_no_such_path_keeps_cursor() {
    let mut cli = cli_over(recs(&["/a", "/a/b"]));
    assert_eq!(cli.change_directory("nope"), CdOutcome::NoSuchPath);
    assert_eq!(cli.current_path, "/");
    assert_eq!(cli.change_directory("/a/b/c"), CdOutcome::NoSuchPath);
    assert_eq!(cli.current_path, "/");
}

#[test]
fn test_cd_validates_range_at_suffixed_candidate() {
    // a sibling extending the candidate by a character below '/'
    // sits at the bare candidate's lower bound; validation must look
    // at the '/'-suffixed candidate's range instead
    let mut cli = cli_over(recs(&["/a!", "/a/x"]));
    assert_eq!(cli.change_directory("a"), CdOutcome::Changed);
    assert_eq!(cli.current_path, "/a/");
}

#[test]
fn test_cd_descends_into_directory_prefix() {
    let mut cli = cli_over(recs(&["/a/b/c"]));
    assert_eq!(cli.change_directory("a"), CdOutcome::Changed);
    // no exact record "/a", so the cursor becomes the directory form
    assert_eq!(cli.current_path, "/a/");
}

#[test]
fn test_cd_pending_expansion_asks_for_resolve() {
    let mut cli = cli_over(recs(&["/a", "/a/b"]));
    cli.more = true;
    assert_eq!(cli.change_directory("a"), CdOutcome::NeedResolve);
    assert_eq!(cli.current_path, "/a");
}

#[test]
fn test_cd_absolute_root() {
    let mut cli = cli_over(recs(&["/a", "/a/b"]));
    cli.change_directory("a");
    assert_eq!(cli.change_directory("/"), CdOutcome::Changed);
    assert_eq!(cli.current_path, "/");
}

#[test]
fn test_range_on_empty_list() {
    let records: Vec<(String, Value)> = Vec::new();
    assert_eq!(range(&records, "/a"), (0, 0));
    assert_eq!(locate(&records, "/a"), 0);
}

#[test]
fn test_run_dispatch() {
    let mut cli = cli_over(recs(&["/a"]));
    assert!(matches!(cli.run("exit"), Action::Quit));
    assert!(matches!(cli.run("refresh"), Action::NeedResolve));
    assert!(matches!(cli.run("frobnicate"), Action::Unknown));
    assert!(matches!(cli.run("cd nope"), Action::NoSuchPath));
    assert_eq!(cli.current_path, "/");
    match cli.run("list") {
        Action::Output(text) => assert_eq!(text, "/a:\n\n"),
        _ => panic!("list must produce output"),
    }
}

#[test]
fn test_apply_refresh_replaces_wholesale() {
    let mut cli = cli_over(recs(&["/a"]));
    cli.change_directory("a");
    let fresh = recs(&["/a", "/a/b"]);
    cli.apply_refresh(ResolveDone { more: true, root: "/a/".to_string(), records: fresh });
    assert_eq!(cli.records.len(), 2);
    assert!(cli.more);
    assert_eq!(cli.root, "/a/");
    assert_eq!(cli.current_path, "/a");
}
