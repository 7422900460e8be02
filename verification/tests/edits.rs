use rust_devtools_mcp::edits::{
    apply_edits, is_before, splits_character, EditError, Position, Range, TextEdit,
};
use rust_devtools_mcp::workspace::{
    apply_edits_to_file, apply_workspace_edit, edit_failure_message, EditStep, FileEdits,
    WorkspaceEdit,
};

fn at(line: u32, character: u32) -> Position {
    Position { line, character }
}

fn edit(start: Position, end: Position, new_text: &str) -> TextEdit {
    TextEdit { range: Range { start, end }, new_text: new_text.to_string() }
}

#[test]
fn edits_replace_their_ranges() {
    let text = "fn old() {}\nold();\n";
    let edits = vec![edit(at(0, 3), at(0, 6), "new_name"), edit(at(1, 0), at(1, 3), "new_name")];
    assert_eq!(apply_edits(text, &edits).unwrap(), "fn new_name() {}\nnew_name();\n");
}

#[test]
fn listing_order_is_irrelevant() {
    let text = "one\ntwo\nthree";
    let a = edit(at(0, 0), at(0, 3), "1");
    let b = edit(at(1, 0), at(1, 3), "2");
    let c = edit(at(2, 5), at(2, 5), "!");
    let ab = apply_edits(text, &vec![a.clone(), b.clone(), c.clone()]).unwrap();
    let ba = apply_edits(text, &vec![c, b, a]).unwrap();
    assert_eq!(ab, "1\n2\nthree!");
    assert_eq!(ab, ba);
}

#[test]
fn characters_take_their_own_bytes() {
    let edits = vec![edit(at(0, 1), at(0, 2), "x")];
    assert_eq!(apply_edits("éàü", &edits).unwrap(), "éxü");
}

#[test]
fn range_over_lines_is_replaced() {
    let edits = vec![edit(at(0, 1), at(2, 1), "-")];
    assert_eq!(apply_edits("abc\ndef\nghi\n", &edits).unwrap(), "a-hi\n");
}

#[test]
fn no_edits_change_nothing() {
    assert_eq!(apply_edits("abc", &vec![]).unwrap(), "abc");
}

#[test]
fn unknown_positions_are_refused() {
    let past_line = vec![edit(at(0, 4), at(0, 4), "x")];
    assert_eq!(apply_edits("abc", &past_line), Err(EditError::UnknownPosition));
    let past_text = vec![edit(at(1, 0), at(1, 0), "x")];
    assert_eq!(apply_edits("abc", &past_text), Err(EditError::UnknownPosition));
    assert_eq!(apply_edits("", &vec![edit(at(0, 0), at(0, 0), "x")]), Err(EditError::UnknownPosition));
}

#[test]
fn backward_range_is_refused() {
    let edits = vec![edit(at(0, 2), at(0, 1), "x")];
    assert_eq!(apply_edits("abc", &edits), Err(EditError::InvalidRange));
}

#[test]
fn split_characters_are_seen() {
    let over = vec![edit(at(0, 1), at(0, 2), "é"), edit(at(0, 0), at(0, 2), "x")];
    assert!(splits_character("ab", &over));
    assert!(!splits_character("a\né", &vec![edit(at(1, 1), at(1, 1), "x")]));
    assert!(!splits_character("a\r\né", &vec![edit(at(1, 1), at(1, 1), "x")]));
}

#[test]
fn carriage_returns_are_counted() {
    let edits = vec![edit(at(1, 0), at(1, 1), "x"), edit(at(2, 1), at(2, 1), "!")];
    assert_eq!(apply_edits("a\r\nb\r\nc", &edits).unwrap(), "a\r\nx\r\nc!");
    let past = vec![edit(at(0, 2), at(0, 2), "x")];
    assert_eq!(apply_edits("a\r\nb", &past), Err(EditError::UnknownPosition));
}

#[test]
fn positions_are_ordered() {
    assert!(is_before(at(0, 9), at(1, 0)));
    assert!(is_before(at(1, 0), at(1, 1)));
    assert!(!is_before(at(1, 1), at(1, 1)));
}

fn sample() -> WorkspaceEdit {
    let first = FileEdits {
        uri: "file:///srv/a%20b.rs".to_string(),
        edits: vec![edit(at(0, 0), at(0, 1), "z")],
    };
    let second = FileEdits { uri: "http://example.org/x".to_string(), edits: vec![] };
    WorkspaceEdit { changes: Some(vec![first, second]), other: Some("{}".to_string()) }
}

#[test]
fn files_are_edited_in_turn() {
    let edit = sample();
    match apply_workspace_edit(&edit, 0) {
        EditStep::Edit { uri, path, edits } => {
            assert_eq!(uri, "file:///srv/a%20b.rs");
            assert_eq!(path, "/srv/a b.rs");
            assert_eq!(edits.len(), 1);
            assert_eq!(edits[0].new_text, "z");
        }
        other => panic!("{:?}", other),
    }
    match apply_workspace_edit(&edit, 1) {
        EditStep::Failed(message) => {
            assert_eq!(message, "Invalid file URI in WorkspaceEdit: http://example.org/x")
        }
        other => panic!("{:?}", other),
    }
    assert!(matches!(apply_workspace_edit(&edit, 2), EditStep::Done));
}

#[test]
fn file_without_a_unicode_path_is_found_by_its_uri() {
    let file = FileEdits { uri: "file:///srv/%FF.rs".to_string(), edits: vec![] };
    let edit = WorkspaceEdit { changes: Some(vec![file]), other: None };
    match apply_workspace_edit(&edit, 0) {
        EditStep::Edit { uri, path, .. } => {
            assert_eq!(uri, "file:///srv/%FF.rs");
            assert_eq!(path, "/srv/\u{FFFD}.rs");
        }
        other => panic!("{:?}", other),
    }
}

#[test]
fn edit_without_changes_is_done() {
    let edit = WorkspaceEdit { changes: None, other: None };
    assert!(matches!(apply_workspace_edit(&edit, 0), EditStep::Done));
    assert_eq!(edit.changes_count(), 0);
    assert!(edit.files_affected().is_empty());
}

#[test]
fn changed_files_are_listed() {
    let edit = sample().copy();
    assert_eq!(edit.changes_count(), 2);
    assert_eq!(edit.files_affected(), vec!["file:///srv/a%20b.rs", "http://example.org/x"]);
    assert_eq!(edit.other, Some("{}".to_string()));
    assert_eq!(edit.changes.unwrap()[0].edits[0].new_text, "z");
}

#[test]
fn file_content_is_edited() {
    let edits = vec![edit(at(0, 0), at(0, 1), "z")];
    assert_eq!(apply_edits_to_file("/f", &edits, Ok("abc".to_string())), Ok("zbc".to_string()));
    assert_eq!(
        apply_edits_to_file("/f", &edits, Err("gone".to_string())),
        Err("Failed to apply edits to /f: gone".to_string())
    );
    assert_eq!(
        apply_edits_to_file("/f", &edits, Ok("".to_string())),
        Err("Failed to apply edits to /f: Could not convert LSP position to byte offset.".to_string())
    );
    let backward = vec![edit(at(0, 1), at(0, 0), "z")];
    assert_eq!(
        apply_edits_to_file("/f", &backward, Ok("abc".to_string())),
        Err("Failed to apply edits to /f: Invalid range in text edit.".to_string())
    );
    assert_eq!(edit_failure_message("/f", "full"), "Failed to apply edits to /f: full");
}

#[test]
fn files_get_their_own_edits() {
    let file = |uri: &str, new_text: &str| FileEdits {
        uri: uri.to_string(),
        edits: vec![edit(at(0, 0), at(0, 1), new_text)],
    };
    let changes = vec![file("file:///a", "A"), file("file:///b", "B")];
    let run = WorkspaceEdit { changes: Some(changes), other: None };
    let mut files = std::collections::BTreeMap::from([
        ("/a".to_string(), "aa".to_string()),
        ("/b".to_string(), "bb".to_string()),
        ("/c".to_string(), "cc".to_string()),
    ]);
    let mut done = 0;
    while let EditStep::Edit { path, edits, .. } = apply_workspace_edit(&run, done) {
        let text = apply_edits_to_file(&path, &edits, Ok(files[&path].clone())).unwrap();
        files.insert(path, text);
        done += 1;
    }
    assert_eq!(done, 2);
    assert_eq!(files["/a"], "Aa");
    assert_eq!(files["/b"], "Bb");
    assert_eq!(files["/c"], "cc");
}
