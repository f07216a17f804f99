use restcli::prefix::Prefix;

fn paths(v: &[&str]) -> Vec<String> {
    v.iter().map(|s| s.to_string()).collect()
}

fn runs(v: &[(&str, usize, usize)]) -> Vec<Prefix> {
    v.iter().map(|(t, a, b)| Prefix { text: t.to_string(), start: *a, end: *b }).collect()
}

#[test]
fn test_build_prefix() {
    let input = paths(&[
        "/languages/C%2FC++",
        "/languages/C%2FC++/applications/clang",
        "/languages/C%2FC++/applications/gcc",
        "/languages/go",
        "/languages/go/applications/grpc",
        "/languages/go/applications/kubernetes",
        "/languages/rust",
        "/languages/rust/applications/cargo",
    ]);
    let prefixes = Prefix::build(&input);
    let expected = runs(&[
        ("/languages", 0, 8),
        ("/C%2FC++", 0, 3),
        ("/applications", 1, 3),
        ("/go", 3, 6),
        ("/applications", 4, 6),
        ("/rust", 6, 8),
    ]);
    assert_eq!(expected, prefixes);
}

#[test]
fn test_build_reference_fixture() {
    // the mixed flat/nested list: one top-level sibling beside a
    // shared sub-tree
    let input = paths(&[
        "/go",
        "/languages/C%2FC++",
        "/languages/applications/go",
        "/languages/applications/rust",
        "/languages/go",
        "/languages/rust",
    ]);
    let prefixes = Prefix::build(&input);
    let expected = runs(&[("/go", 0, 1), ("/languages", 1, 6), ("/applications", 2, 4)]);
    assert_eq!(expected, prefixes);
}

#[test]
fn test_build_empty() {
    let input: Vec<String> = Vec::new();
    assert!(Prefix::build(&input).is_empty());
}

#[test]
fn test_build_single_path_closes_whole_label() {
    let input = paths(&["/a/b/c"]);
    let prefixes = Prefix::build(&input);
    assert_eq!(runs(&[("/a/b/c", 0, 1)]), prefixes);
}

#[test]
fn test_build_deterministic() {
    let input = paths(&["/a", "/a/x", "/a/y", "/b"]);
    let first = Prefix::build(&input);
    let second = Prefix::build(&input);
    assert_eq!(first, second);
}

#[test]
fn test_build_merges_single_child_chain() {
    // one chain of single-child segments shared by two leaves merges
    // into one multi-segment label
    let input = paths(&["/svc/api/v1/a", "/svc/api/v1/b"]);
    let prefixes = Prefix::build(&input);
    assert_eq!(runs(&[("/svc/api/v1", 0, 2)]), prefixes);
}

#[test]
fn test_round_trip_grouping() {
    // replaying the runs over the record range reconstructs every
    // path exactly once: nothing lost, nothing duplicated
    let input = paths(&[
        "/go",
        "/languages/C%2FC++",
        "/languages/applications/go",
        "/languages/applications/rust",
        "/languages/go",
        "/languages/rust",
    ]);
    let prefixes = Prefix::build(&input);
    let mut recovered: Vec<String> = Vec::new();
    let mut open: Vec<&Prefix> = Vec::new();
    let mut index = 0;
    for (i, path) in input.iter().enumerate() {
        while let Some(top) = open.last() {
            if i >= top.end {
                open.pop();
            } else {
                break;
            }
        }
        while index < prefixes.len() && i >= prefixes[index].start {
            open.push(&prefixes[index]);
            index += 1;
        }
        let mut rebuilt = String::new();
        for p in &open {
            rebuilt.push_str(&p.text);
        }
        let covered: usize = open.iter().map(|p| p.text.len()).sum();
        rebuilt.push_str(&path[covered..]);
        recovered.push(rebuilt);
    }
    assert_eq!(input, recovered);
}
