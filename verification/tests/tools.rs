use rust_devtools_mcp::actions::Fix;
use rust_devtools_mcp::edits::{Position, Range};
use rust_devtools_mcp::reply::{error_response, Content, ErrorKind, Outcome, ToolError};
use rust_devtools_mcp::symbols::{SymbolInformation, WorkspaceSymbolResponse};
use rust_devtools_mcp::tools::{
    check_project, check_project_with_fixes, find_symbol_usages, fix_queries, get_symbol_info,
    is_set, locate_symbol, locate_symbol_to_rename, rename_edit, rename_symbol, test_project,
    CompilerMessage, HoverContents, Located, OfferedAction, Span, Usage,
};
use rust_devtools_mcp::workspace::{FileEdits, WorkspaceEdit};

fn range(start: u32, end: u32) -> Range {
    Range {
        start: Position { line: start, character: 0 },
        end: Position { line: end, character: 0 },
    }
}

fn symbol(uri: &str) -> SymbolInformation {
    SymbolInformation {
        name: "f".to_string(),
        kind: 12,
        uri: uri.to_string(),
        range: range(3, 4),
        container_name: None,
    }
}

fn texts(outcome: &Outcome) -> Vec<String> {
    outcome
        .reply
        .as_ref()
        .unwrap()
        .content
        .iter()
        .map(|c| match c {
            Content::Text(text) => text.clone(),
            other => panic!("{:?}", other),
        })
        .collect()
}

fn failure(outcome: &Outcome) -> &ToolError {
    outcome.reply.as_ref().unwrap_err()
}

#[test]
fn flags_are_off_by_default() {
    assert!(is_set(Some(true)));
    assert!(!is_set(Some(false)) && !is_set(None));
}

#[test]
fn errors_are_answers() {
    let result = error_response("bad");
    assert!(result.is_error);
    assert!(matches!(&result.content[..], [Content::Text(t)] if t == "bad"));
}

#[test]
fn symbol_is_located() {
    let reply = |uri: &str| Ok(Some(WorkspaceSymbolResponse::Flat(vec![symbol(uri)])));
    match locate_symbol(reply("file:///p/a.rs"), "f", None) {
        Located::At { path, symbol } => {
            assert_eq!(path, "/p/a.rs");
            assert_eq!(symbol.name, "f");
        }
        other => panic!("{:?}", other),
    }
    match locate_symbol(reply("file:///p/%FF.rs"), "f", None) {
        Located::At { path, symbol } => {
            assert_eq!(path, "/p/\u{FFFD}.rs");
            assert_eq!(symbol.uri, "file:///p/%FF.rs");
        }
        other => panic!("{:?}", other),
    }
    match locate_symbol(reply("http://x/"), "f", None) {
        Located::Answer(outcome) => {
            assert_eq!(failure(&outcome).kind, ErrorKind::Internal);
            assert_eq!(failure(&outcome).message, "Invalid file path in symbol location");
        }
        other => panic!("{:?}", other),
    }
    match locate_symbol(Ok(None), "f", None) {
        Located::Answer(outcome) => {
            assert_eq!(texts(&outcome), vec!["Symbol 'f' not found in project."]);
            assert!(outcome.reply.unwrap().is_error);
        }
        other => panic!("{:?}", other),
    }
}

#[test]
fn symbol_to_rename_is_located() {
    let reply = |uri: &str| Ok(Some(WorkspaceSymbolResponse::Flat(vec![symbol(uri)])));
    let found = locate_symbol_to_rename(reply("file:///p/a.rs"), "f", None);
    assert!(matches!(found, Located::At { path, .. } if path == "/p/a.rs"));
    match locate_symbol_to_rename(reply("http://x/"), "f", None) {
        Located::Answer(outcome) => {
            assert_eq!(texts(&outcome), vec!["Invalid file path for symbol 'f'"])
        }
        other => panic!("{:?}", other),
    }
    match locate_symbol_to_rename(Ok(None), "f", None) {
        Located::Answer(outcome) => assert_eq!(
            texts(&outcome),
            vec!["Failed to locate symbol 'f': Symbol 'f' not found in project."]
        ),
        other => panic!("{:?}", other),
    }
}

#[test]
fn symbol_info_is_reported() {
    let content = (0..20).map(|i| i.to_string()).collect::<Vec<_>>().join("\n");
    let hover = Some(HoverContents::Array(vec!["a".to_string(), "b".to_string()]));
    let outcome = get_symbol_info(&symbol("file:///p/a.rs"), "/p/a.rs", &hover, &Some(content));
    assert!(outcome.notify && outcome.refresh);
    match &outcome.reply.unwrap().content[0] {
        Content::Symbol(report) => {
            assert_eq!(report.symbol, "f");
            assert_eq!(report.kind, "Function");
            assert_eq!(report.file_path, "/p/a.rs");
            assert_eq!((report.start_line, report.end_line), (3, 4));
            assert_eq!(report.documentation, "a\n\n---\n\nb");
            assert_eq!(report.definition_code, "1\n2\n3\n4\n5\n6\n7\n8\n9");
        }
        other => panic!("{:?}", other),
    }
}

#[test]
fn unreadable_symbol_is_reported() {
    let outcome = get_symbol_info(&symbol("file:///p/a.rs"), "/p/a.rs", &None, &None);
    match &outcome.reply.unwrap().content[0] {
        Content::Symbol(report) => {
            assert_eq!(report.documentation, "No documentation found.");
            assert_eq!(report.definition_code, "Could not read source file.");
        }
        other => panic!("{:?}", other),
    }
    for hover in [HoverContents::Scalar("x".to_string()), HoverContents::Markup("x".to_string())] {
        let outcome = get_symbol_info(&symbol("file:///a"), "/a", &Some(hover), &None);
        match &outcome.reply.unwrap().content[0] {
            Content::Symbol(report) => assert_eq!(report.documentation, "x"),
            other => panic!("{:?}", other),
        }
    }
}

#[test]
fn usages_are_shown() {
    let usage = |uri: &str, content: Option<&str>| Usage {
        uri: uri.to_string(),
        range: range(1, 1),
        content: content.map(|c| c.to_string()),
    };
    let usages = vec![
        usage("file:///p/a.rs", Some("x\ny\nz")),
        usage("http://x/", Some("x\ny")),
        usage("file:///p/b.rs", None),
    ];
    let outcome = find_symbol_usages(Ok(Some(usages)));
    assert_eq!(texts(&outcome), vec!["### /p/a.rs\n(Line: 2)\n```rust\nx\ny\nz\n```"]);
    assert!(outcome.notify && !outcome.refresh);
    let none = find_symbol_usages(Ok(Some(vec![])));
    assert_eq!(texts(&none), vec!["No usages found."]);
    let unanswered = find_symbol_usages(Ok(None));
    assert_eq!(texts(&unanswered), vec!["No usages found."]);
    assert!(unanswered.notify && !unanswered.refresh && !unanswered.reply.unwrap().is_error);
    assert_eq!(failure(&find_symbol_usages(Err("e".to_string()))).message, "e");
}

fn span(file_name: &str, is_primary: bool, line: usize) -> Span {
    Span {
        file_name: file_name.to_string(),
        is_primary,
        line_start: line,
        line_end: line + 1,
        column_start: 5,
        column_end: 0,
    }
}

fn message(rendered: &str, spans: Vec<Span>) -> CompilerMessage {
    CompilerMessage { level: "error".to_string(), rendered: rendered.to_string(), spans }
}

fn messages() -> Vec<CompilerMessage> {
    vec![
        message("one", vec![span("x.rs", false, 1), span("src/a.rs", true, 7)]),
        message("none", vec![span("x.rs", false, 1)]),
        message("two", vec![span("src/b.rs", true, 9), span("x.rs", true, 1)]),
    ]
}

#[test]
fn repairs_are_asked_for_at_primary_spans() {
    let queries = fix_queries("/p", &messages());
    assert_eq!(queries.len(), 2);
    assert_eq!(queries[0].path, "/p/src/a.rs");
    assert_eq!(queries[0].range.start, Position { line: 6, character: 4 });
    assert_eq!(queries[0].range.end, Position { line: 7, character: 0 });
    assert_eq!(queries[1].path, "/p/src/b.rs");
}

#[test]
fn check_reports_diagnostics_with_repairs() {
    let fix = Fix { title: "fix".to_string(), kind: None, edit_to_apply: None };
    let offers = vec![Some(vec![OfferedAction::Command, OfferedAction::Action(fix)]), None];
    let outcome = check_project_with_fixes(Ok(messages()), offers);
    assert!(outcome.notify && outcome.refresh);
    match &outcome.reply.unwrap().content[0] {
        Content::Diagnostics(diagnostics) => {
            assert_eq!(diagnostics.len(), 2);
            assert_eq!(diagnostics[0].file_path, "src/a.rs");
            assert_eq!(diagnostics[0].message, "one");
            assert_eq!(diagnostics[0].severity, "error");
            assert_eq!((diagnostics[0].line, diagnostics[0].character), (7, 5));
            assert_eq!(diagnostics[0].available_fixes.len(), 1);
            assert_eq!(diagnostics[0].available_fixes[0].title, "fix");
            assert_eq!(diagnostics[1].file_path, "src/b.rs");
            assert!(diagnostics[1].available_fixes.is_empty());
        }
        other => panic!("{:?}", other),
    }
}

#[test]
fn clean_check_is_told() {
    let clean = check_project_with_fixes(Ok(vec![]), vec![]);
    assert_eq!(texts(&clean), vec!["Project check passed. No diagnostics found."]);
    assert!(clean.notify && clean.refresh);
    let failed = check_project_with_fixes(Err("no cargo".to_string()), vec![]);
    assert_eq!(failure(&failed).message, "no cargo");
    let clean = check_project(Ok(vec![]));
    assert_eq!(texts(&clean), vec!["Project check passed. No errors or warnings."]);
    assert!(!clean.notify && clean.refresh);
    let dirty = check_project(Ok(vec!["a".to_string(), "b".to_string()]));
    assert_eq!(texts(&dirty), vec!["a", "b"]);
    assert!(dirty.notify && dirty.refresh);
    assert_eq!(failure(&check_project(Err("e".to_string()))).kind, ErrorKind::Internal);
}

#[test]
fn test_run_is_told() {
    let run = test_project(Ok(vec!["ok".to_string()]));
    assert_eq!(texts(&run), vec!["ok"]);
    assert!(run.notify && !run.refresh);
    assert_eq!(failure(&test_project(Err("e".to_string()))).message, "e");
}

#[test]
fn renaming_is_told() {
    let file = FileEdits { uri: "file:///p/a.rs".to_string(), edits: vec![] };
    let edit = WorkspaceEdit { changes: Some(vec![file]), other: None };
    let done = rename_symbol("old", "new", &edit, Ok(()));
    assert!(done.notify && done.refresh);
    match &done.reply.unwrap().content[0] {
        Content::Rename(report) => {
            assert_eq!(report.status, "completed");
            assert_eq!(report.action_id, None);
            assert_eq!(report.changes_count, 1);
            assert_eq!(report.files_affected, vec!["file:///p/a.rs"]);
            assert_eq!(report.message, "✓ Successfully renamed 'old' to 'new'");
        }
        other => panic!("{:?}", other),
    }
    let failed = rename_symbol("old", "new", &edit, Err("e".to_string()));
    assert_eq!(texts(&failed), vec!["Failed to rename 'old' to 'new': e"]);
}

#[test]
fn renaming_needs_an_edit() {
    let edit = WorkspaceEdit { changes: None, other: None };
    assert!(rename_edit(Ok(Some(edit))).is_ok());
    assert_eq!(rename_edit(Err("e".to_string())).unwrap_err().message, "e");
    assert_eq!(
        rename_edit(Ok(None)).unwrap_err().message,
        "Could not perform rename operation. The symbol at the given location may not be renameable."
    );
}
