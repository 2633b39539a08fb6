use codesift::search::{search_file_content, search_file_content_checked, SearchMode};
use codesift::types::FileId;

#[test]
fn test_exact_match() {
    let content = b"fn main() {\n    println!(\"hello\");\n}";
    let matches = search_file_content(content, FileId::new(0), "main", SearchMode::Exact, 100);
    assert!(!matches.is_empty());
}

#[test]
fn test_no_match() {
    let content = b"fn foo() {}";
    let matches = search_file_content(content, FileId::new(0), "bar", SearchMode::Exact, 100);
    assert!(matches.is_empty());
}

use codesift::index::Index;
use codesift::search::{search, search_files, search_text, SearchQuery};
use codesift::types::{FileEntry, Range};
use codesift::TokenBudget;

fn lines_of(ms: &[codesift::index::LexicalMatch]) -> Vec<(u32, String)> {
    ms.iter().map(|m| (m.line_number, m.line.clone())).collect()
}

#[test]
fn matches_carry_their_line_and_range() {
    let ms = search_text("fn a\nfn main\n  main()\n", FileId::new(4), "main", SearchMode::Exact, 100);
    assert_eq!(lines_of(&ms), vec![(2, "fn main".to_string()), (3, "  main()".to_string())]);
    assert_eq!(ms[0].range, Range::new(5, 12, 2, 2));
    assert_eq!(ms[1].range, Range::new(13, 21, 3, 3));
    assert_eq!(ms[0].file_id, FileId::new(4));
}

#[test]
fn carriage_returns_are_not_part_of_the_line() {
    let ms = search_text("a\r\nmain\r\n", FileId::new(0), "main", SearchMode::Exact, 100);
    assert_eq!(lines_of(&ms), vec![(2, "main".to_string())]);
    assert_eq!(ms[0].range, Range::new(2, 6, 2, 2));
}

#[test]
fn search_stops_at_the_cap() {
    let text = "x\nx\nx\n";
    assert_eq!(search_text(text, FileId::new(0), "x", SearchMode::Exact, 2).len(), 2);
    assert_eq!(search_text(text, FileId::new(0), "x", SearchMode::Exact, 0).len(), 1);
}

#[test]
fn search_modes_decide_what_matches() {
    let text = "Let Main = 1\nlet main_loop = 2\nfn main() {}\n";
    let ci = search_text(text, FileId::new(0), "MAIN", SearchMode::CaseInsensitive, 100);
    assert_eq!(ci.len(), 3);
    let ident = search_text(text, FileId::new(0), "Main", SearchMode::Identifier, 100);
    assert_eq!(lines_of(&ident), vec![(1, "Let Main = 1".to_string())]);
    let re = search_text(text, FileId::new(0), r"^fn \w+\(", SearchMode::Regex, 100);
    assert_eq!(lines_of(&re), vec![(3, "fn main() {}".to_string())]);
    let bad = search_text(text, FileId::new(0), "(unclosed", SearchMode::Regex, 100);
    assert!(bad.is_empty());
}

#[test]
fn search_results_match_on_values() {
    let text = "alpha\nbeta\nalphabet\ngamma\n";
    let ms = search_text(text, FileId::new(0), "alpha", SearchMode::Exact, 100);
    assert_eq!(ms.len(), 2);
    for m in &ms {
        assert!(m.line.contains("alpha"));
        assert_eq!(&text[m.range.start_byte..m.range.end_byte], m.line);
    }
}

#[test]
fn invalid_utf8_is_read_with_replacement_characters() {
    let content = b"ok \xff main\n";
    let ms = search_file_content(content, FileId::new(0), "main", SearchMode::Exact, 100);
    assert_eq!(ms.len(), 1);
    assert_eq!(ms[0].line, "ok \u{FFFD} main");
    assert_eq!(ms[0].range, Range::new(0, 11, 1, 1));
}

#[test]
fn search_walks_the_indexed_files() {
    let mut index = Index::new();
    let text = "fn main() {}\nfn helper() {}\n";
    let a = index.add_file(FileEntry::from_parts("/r/a.rs".to_string(), 0, 0, text.as_bytes()).unwrap());
    let b = index.add_file(FileEntry::from_parts("/r/b.rs".to_string(), 0, 0, b"x").unwrap());
    index.store_content(a, text.as_bytes().to_vec());
    let query = SearchQuery { pattern: "helper".to_string(), ..SearchQuery::default() };
    let found = search(&query, &index, &TokenBudget::default()).unwrap();
    assert_eq!(lines_of(&found), vec![(2, "fn helper() {}".to_string())]);

    let listed = search_files(&query, &index, &[b, a], 100);
    assert_eq!(listed.len(), 1);
    assert_eq!(listed[0].file_id, a);

    let limited = SearchQuery { pattern: "fn".to_string(), max_results: 1, ..SearchQuery::default() };
    assert_eq!(search(&limited, &index, &TokenBudget::default()).unwrap().len(), 1);
}

#[test]
fn checked_search_gives_the_matches_where_lines_can_be_numbered() {
    let content = b"fn main() {}\nfn other() { main(); }\n";
    let found = search_file_content_checked(content, FileId::new(2), "main", SearchMode::Exact, 100).unwrap();
    let lines: Vec<u32> = found.iter().map(|m| m.line_number).collect();
    assert_eq!(lines, vec![1, 2]);
    assert_eq!(found.len(), search_file_content(content, FileId::new(2), "main", SearchMode::Exact, 100).len());
}
