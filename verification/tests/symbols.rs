use rust_devtools_mcp::edits::{Position, Range};
use rust_devtools_mcp::symbols::{
    calculate_symbol_score, choose_best_symbol, deduplicate_symbols, resolve_symbol_in_project,
    SymbolInformation, WorkspaceSymbol, WorkspaceSymbolResponse,
};

fn range() -> Range {
    let start = Position { line: 1, character: 0 };
    let end = Position { line: 2, character: 0 };
    Range { start, end }
}

fn symbol(name: &str, kind: i32, uri: &str) -> SymbolInformation {
    SymbolInformation {
        name: name.to_string(),
        kind,
        uri: uri.to_string(),
        range: range(),
        container_name: None,
    }
}

fn flat(symbols: Vec<SymbolInformation>) -> Result<Option<WorkspaceSymbolResponse>, String> {
    Ok(Some(WorkspaceSymbolResponse::Flat(symbols)))
}

#[test]
fn scores_of_files() {
    assert_eq!(calculate_symbol_score(&symbol("f", 12, "file:///p/src/lib.rs")), 194);
    assert_eq!(calculate_symbol_score(&symbol("f", 12, "file:///p/SRC/Mod.rs")), 174);
    assert_eq!(calculate_symbol_score(&symbol("f", 12, "file:///p/tests/a.rs")), 84);
    assert_eq!(calculate_symbol_score(&symbol("f", 12, "file:///p/target/build/a.txt")), 52);
    assert_eq!(calculate_symbol_score(&symbol("f", 12, "http://example.org/")), 0);
    assert_eq!(calculate_symbol_score(&symbol("f", 12, "no uri")), 0);
}

#[test]
fn best_symbol_is_the_first_of_the_best() {
    let group = vec![
        symbol("f", 12, "file:///p/tests/a.rs"),
        symbol("f", 12, "file:///p/src/a.rs"),
        symbol("f", 12, "file:///p/src/b.rs"),
    ];
    assert_eq!(choose_best_symbol(&group).uri, "file:///p/src/a.rs");
}

#[test]
fn one_symbol_remains_for_each_name_and_kind() {
    let symbols = vec![
        symbol("f", 12, "file:///p/tests/a.rs"),
        symbol("g", 12, "file:///p/src/a.rs"),
        symbol("f", 12, "file:///p/src/a.rs"),
        symbol("f", 23, "file:///p/src/a.rs"),
    ];
    let left = deduplicate_symbols(&symbols);
    let shown: Vec<(String, i32, String)> =
        left.iter().map(|s| (s.name.clone(), s.kind, s.uri.clone())).collect();
    let src = "file:///p/src/a.rs".to_string();
    assert_eq!(
        shown,
        vec![
            ("f".to_string(), 12, src.clone()),
            ("g".to_string(), 12, src.clone()),
            ("f".to_string(), 23, src)
        ]
    );
    assert_eq!(deduplicate_symbols(&left).len(), 3);
}

#[test]
fn many_groups_keep_their_order() {
    let mut symbols = Vec::new();
    for i in 0..30 {
        symbols.push(symbol(&format!("s{}", i), 12, "file:///p/tests/a.rs"));
    }
    for i in 0..30 {
        symbols.push(symbol(&format!("s{}", i), 12, "file:///p/src/a.rs"));
    }
    let left = deduplicate_symbols(&symbols);
    assert_eq!(left.len(), 30);
    for (i, s) in left.iter().enumerate() {
        assert_eq!(s.name, format!("s{}", i));
        assert_eq!(s.uri, "file:///p/src/a.rs");
    }
}

#[test]
fn single_symbol_is_resolved() {
    let found = resolve_symbol_in_project(flat(vec![symbol("f", 12, "file:///a.rs")]), "f", None);
    assert_eq!(found.unwrap().uri, "file:///a.rs");
}

#[test]
fn equal_symbols_are_resolved() {
    let listed = flat(vec![
        symbol("f", 12, "file:///p/tests/a.rs"),
        symbol("f", 12, "file:///p/src/a.rs"),
    ]);
    let found = resolve_symbol_in_project(listed, "f", None).unwrap();
    assert_eq!(found.uri, "file:///p/src/a.rs");
}

#[test]
fn hint_resolves_a_symbol() {
    let listed = flat(vec![symbol("f", 12, "file:///p/src/a.rs"), symbol("f", 5, "file:///p/src/b.rs")]);
    let by_path = resolve_symbol_in_project(listed.clone(), "f", Some("src/b.rs")).unwrap();
    assert_eq!(by_path.kind, 5);
    let by_text = resolve_symbol_in_project(listed.clone(), "f", Some("/b")).unwrap();
    assert_eq!(by_text.kind, 5);
    let by_dots = resolve_symbol_in_project(listed, "f", Some("./src//b.rs"));
    assert!(by_dots.is_err());
}

#[test]
fn hint_is_compared_by_components() {
    let listed = flat(vec![symbol("f", 12, "file:///p/src/a.rs"), symbol("f", 5, "file:///p/src/b.rs")]);
    let found = resolve_symbol_in_project(listed, "f", Some("src//b.rs")).unwrap();
    assert_eq!(found.kind, 5);
}

#[test]
fn ambiguous_symbol_lists_candidates() {
    let listed = flat(vec![
        symbol("f", 12, "file:///p/src/a.rs"),
        symbol("f", 99, "file:///p/src/b.rs"),
        symbol("f", 5, "http://example.org/"),
    ]);
    let message = resolve_symbol_in_project(listed, "f", Some("none")).unwrap_err();
    assert_eq!(
        message,
        "Symbol 'f' is ambiguous. Please provide a more specific file_hint or ask the user to clarify from the following candidates:\n- `f` (kind: Function) in `/p/src/a.rs`\n- `f` (kind: SymbolKind(99)) in `/p/src/b.rs`"
    );
}

#[test]
fn unknown_symbol_is_refused() {
    let message = "Symbol 'f' not found in project.".to_string();
    assert_eq!(resolve_symbol_in_project(Ok(None), "f", None).unwrap_err(), message);
    assert_eq!(resolve_symbol_in_project(flat(vec![]), "f", None).unwrap_err(), message);
    let failed = resolve_symbol_in_project(Err("timeout".to_string()), "f", None);
    assert_eq!(failed.unwrap_err(), "LSP error while searching for symbol: timeout");
}

#[test]
fn symbols_without_range_are_left_out() {
    let workspace = |range| WorkspaceSymbol {
        name: "f".to_string(),
        kind: 12,
        uri: "file:///p/src/a.rs".to_string(),
        range,
        container_name: Some("m".to_string()),
    };
    let nested = vec![workspace(None), workspace(Some(range()))];
    let reply = Ok(Some(WorkspaceSymbolResponse::Nested(nested)));
    let found = resolve_symbol_in_project(reply, "f", None).unwrap();
    assert_eq!(found.range, range());
    assert_eq!(found.container_name, Some("m".to_string()));
}
