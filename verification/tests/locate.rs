use rust_devtools_mcp::edits::Position;
use rust_devtools_mcp::locate::{
    byte_positions_to_lsp_positions, calculate_similarity, find_target_location, get_file_lines,
    line_similarities, line_to_byte_offset, BlockScore, LineScore, Similarity,
};
use rust_devtools_mcp::scope::determine_code_scope;

fn strings(items: &[&str]) -> Vec<String> {
    items.iter().map(|s| s.to_string()).collect()
}

const CODE: &str = "struct A {\n    x: u8,\n}\n\nfn main() {\n    run();\n}\n";

#[test]
fn lines_with_context() {
    let text = "0\n1\n2\n3\n4\n5";
    assert_eq!(get_file_lines(text, 2, 3, 1, 1).unwrap(), "1\n2\n3\n4");
    assert_eq!(get_file_lines(text, 0, 0, 2, 0).unwrap(), "0");
    assert_eq!(get_file_lines(text, 4, 4, 0, 5).unwrap(), "4\n5");
    assert_eq!(get_file_lines(text, 5, 5, 9, 255).unwrap(), text);
    assert_eq!(get_file_lines("0\n1\n2", 4, 2, 3, 0).unwrap(), "1\n2");
}

#[test]
fn lines_out_of_the_text() {
    assert_eq!(get_file_lines("0\n1", 2, 5, 0, 0), None);
    assert_eq!(get_file_lines("a\nb\nc\n", 1, 5, 0, 0), None);
    assert_eq!(get_file_lines("a\nb\nc\n", 3, 3, 1, 0), None);
    assert_eq!(get_file_lines("", 0, 0, 0, 0), None);
    assert_eq!(get_file_lines("0\n1\n2", 2, 1, 0, 0), None);
}

#[test]
fn many_lines_keep_their_order() {
    let all: Vec<String> = (0..3000).map(|i| i.to_string()).collect();
    let text = all.join("\n");
    assert_eq!(get_file_lines(&text, 10, 2500, 0, 0).unwrap(), all[10..=2500].join("\n"));
}

#[test]
fn scope_of_a_function() {
    let lines: Vec<String> = CODE.lines().map(|l| l.to_string()).collect();
    assert_eq!(determine_code_scope(&lines, 4), (4, 6));
    assert_eq!(determine_code_scope(&lines, 0), (0, 2));
}

#[test]
fn scope_without_braces() {
    let lines = strings(&["a", "b", "c", "d", "e", "f"]);
    assert_eq!(determine_code_scope(&lines, 3), (1, 5));
    assert_eq!(determine_code_scope(&lines, 0), (0, 2));
}

#[test]
fn scope_holds_its_line() {
    let lines: Vec<String> = CODE.lines().map(|l| l.to_string()).collect();
    for i in 0..lines.len() {
        let (first, last) = determine_code_scope(&lines, i);
        assert!(first <= i && i <= last && last < lines.len());
    }
}

#[test]
fn byte_offsets_of_lines() {
    assert_eq!(line_to_byte_offset("é\nab\n", 0), 0);
    assert_eq!(line_to_byte_offset("é\nab\n", 1), 3);
    assert_eq!(line_to_byte_offset("é\nab\n", 2), 6);
    assert_eq!(line_to_byte_offset("é\nab\n", 9), 6);
    assert_eq!(line_to_byte_offset("é\nab", 2), 5);
    assert_eq!(line_to_byte_offset("a\r\nb", 1), 3);
}

#[test]
fn line_starts_convert() {
    let (start, end) = byte_positions_to_lsp_positions("ab\ncd\nef", 3, 6);
    assert_eq!(start, Position { line: 1, character: 0 });
    assert_eq!(end, Position { line: 2, character: 0 });
}

#[test]
fn bytes_inside_a_line_convert() {
    let (start, end) = byte_positions_to_lsp_positions("ab\ncd", 0, 99);
    assert_eq!(start, Position { line: 0, character: 0 });
    assert_eq!(end, Position { line: 1, character: 2 });
    let (start, end) = byte_positions_to_lsp_positions("abc", 1, 2);
    assert_eq!(start, Position { line: 0, character: 1 });
    assert_eq!(end, Position { line: 0, character: 2 });
    let (inside, behind) = byte_positions_to_lsp_positions("a\né", 3, 4);
    assert_eq!(inside, Position { line: 1, character: 1 });
    assert_eq!(behind, Position { line: 1, character: 2 });
}

#[test]
fn carriage_returns_count() {
    let text = "a\r\nb";
    let start = line_to_byte_offset(text, 1);
    assert_eq!(&text[start..], "b");
    let (back, _) = byte_positions_to_lsp_positions(text, start, start);
    assert_eq!(back, Position { line: 1, character: 0 });
}

#[test]
fn texts_are_similar_by_their_words() {
    assert_eq!(calculate_similarity("a b b", "b c"), Similarity { part: 1, whole: 3 });
    assert_eq!(calculate_similarity("b c", "a b b"), Similarity { part: 1, whole: 3 });
    assert_eq!(calculate_similarity("", " "), Similarity { part: 1, whole: 1 });
    assert_eq!(calculate_similarity("a b", "b  a"), Similarity { part: 2, whole: 2 });
    assert_eq!(calculate_similarity("a", ""), Similarity { part: 0, whole: 1 });
    assert_eq!(
        line_similarities("a\nb c", "a"),
        vec![Similarity { part: 1, whole: 1 }, Similarity { part: 0, whole: 3 }]
    );
}

fn scores(n: usize, passing: &[usize]) -> Vec<LineScore> {
    let block = BlockScore { plain: 5, with_hint: 7 };
    (0..n).map(|i| LineScore { passes: passing.contains(&i), block }).collect()
}

#[test]
fn exact_match_is_located() {
    let exact = BlockScore { plain: 8, with_hint: 9 };
    let fuzzy = scores(7, &[]);
    let found = find_target_location(CODE, "main", None, exact, &fuzzy, Some(8)).unwrap();
    assert_eq!(found, (25, 50, "fn main() {\n    run();\n}".to_string()));
    assert_eq!(&CODE[25..49], found.2);
    assert_eq!(&CODE[25..50], format!("{}\n", found.2));
    let open = find_target_location("fn f() {}", "f", None, exact, &scores(1, &[]), Some(8));
    assert_eq!(open.unwrap(), (0, 9, "fn f() {}".to_string()));
    assert_eq!(find_target_location(CODE, "main", None, exact, &fuzzy, Some(9)), None);
    let hinted = find_target_location(CODE, "main", Some("run"), exact, &fuzzy, Some(9));
    assert_eq!(hinted.unwrap().0, 25);
    assert_eq!(find_target_location(CODE, "main", None, exact, &fuzzy, None), None);
}

#[test]
fn fuzzy_match_is_located() {
    let exact = BlockScore { plain: 8, with_hint: 9 };
    let found = find_target_location(CODE, "absent", None, exact, &scores(7, &[1]), Some(5));
    assert_eq!(found.unwrap().2, "struct A {\n    x: u8,\n}\n");
    assert_eq!(find_target_location(CODE, "absent", None, exact, &scores(7, &[]), Some(0)), None);
}
