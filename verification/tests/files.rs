use rust_devtools_mcp::files::{
    find_files_by_name, resolve_file_path, search_patterns, FileFacts, FileStep,
};

fn strings(items: &[&str]) -> Vec<String> {
    items.iter().map(|s| s.to_string()).collect()
}

#[test]
fn patterns_of_a_search() {
    assert_eq!(
        search_patterns("/p", "lib"),
        strings(&["/p/**/lib", "/p/**/*lib*", "/p/**/lib.rs", "/p/**/*lib.rs"])
    );
}

#[test]
fn files_are_ranked() {
    let found = strings(&[
        "/p/a/b/c/x.rs",
        "/p/a/my_x.rs",
        "/p/a/b/x.rs",
        "/p/a/my_x.rs",
        "/p/your_x.rs",
        "/p/b/my_x.rs",
    ]);
    assert_eq!(
        find_files_by_name(&found, "x.rs", 10),
        strings(&["/p/a/b/x.rs", "/p/a/b/c/x.rs", "/p/your_x.rs", "/p/a/my_x.rs", "/p/b/my_x.rs"])
    );
    assert_eq!(find_files_by_name(&found, "x.rs", 1), strings(&["/p/a/b/x.rs"]));
    assert!(find_files_by_name(&found, "x.rs", 0).is_empty());
    assert!(find_files_by_name(&vec![], "x.rs", 5).is_empty());
}

#[test]
fn many_files_are_ranked() {
    let mut found = Vec::new();
    for i in 0..150 {
        found.push(format!("/p/deep/er/f{}.rs", i));
    }
    found.push("/p/a/b/c/d/f7".to_string());
    found.push("/p/top.rs".to_string());
    let best = find_files_by_name(&found, "f7", 4);
    assert_eq!(
        best,
        strings(&["/p/a/b/c/d/f7", "/p/top.rs", "/p/deep/er/f0.rs", "/p/deep/er/f1.rs"])
    );
}

fn facts(absolute: Option<bool>, relative: Option<bool>, found: Option<Vec<String>>) -> FileFacts {
    FileFacts { absolute_exists: absolute, relative_exists: relative, found }
}

#[test]
fn absolute_path_comes_first() {
    let ask = resolve_file_path("/p", "/q/x.rs", &facts(None, None, None));
    assert!(matches!(ask, FileStep::AskAbsolute(p) if p == "/q/x.rs"));
    match resolve_file_path("/p", "/q/x.rs", &facts(Some(true), None, None)) {
        FileStep::Found { path, note } => {
            assert_eq!(path, "/q/x.rs");
            assert_eq!(note, None);
        }
        other => panic!("{:?}", other),
    }
}

#[test]
fn path_from_the_root_comes_next() {
    let ask = resolve_file_path("/p", "src/x.rs", &facts(None, None, None));
    assert!(matches!(ask, FileStep::AskRelative(p) if p == "/p/src/x.rs"));
    let found = resolve_file_path("/p", "src/x.rs", &facts(None, Some(true), None));
    assert!(matches!(found, FileStep::Found { path, note: None } if path == "/p/src/x.rs"));
}

#[test]
fn search_comes_last() {
    match resolve_file_path("/p", "src/x.rs", &facts(None, Some(false), None)) {
        FileStep::Search { filename, patterns } => {
            assert_eq!(filename, "x.rs");
            assert_eq!(patterns, search_patterns("/p", "x.rs"));
        }
        other => panic!("{:?}", other),
    }
    match resolve_file_path("/p", "..", &facts(None, Some(false), None)) {
        FileStep::Search { filename, .. } => assert_eq!(filename, ".."),
        other => panic!("{:?}", other),
    }
}

#[test]
fn search_ends_with_the_best_match() {
    let none = facts(None, Some(false), Some(vec![]));
    match resolve_file_path("/p", "src/x.rs", &none) {
        FileStep::Missing(message) => {
            assert_eq!(message, "No files found matching 'src/x.rs' in project '/p'")
        }
        other => panic!("{:?}", other),
    }
    let one = facts(None, Some(false), Some(strings(&["/p/a/x.rs"])));
    let step = resolve_file_path("/p", "x.rs", &one);
    assert!(matches!(step, FileStep::Found { path, note: None } if path == "/p/a/x.rs"));
    let several = facts(None, Some(false), Some(strings(&["/p/a/x.rs", "/p/x.rs", "/p/b/x.rs"])));
    match resolve_file_path("/p", "x.rs", &several) {
        FileStep::Found { path, note } => {
            assert_eq!(path, "/p/x.rs");
            assert_eq!(
                note.unwrap(),
                "Multiple files found for 'x.rs'. Using: /p/x.rs. Alternatives: /p/a/x.rs, /p/b/x.rs"
            );
        }
        other => panic!("{:?}", other),
    }
}
