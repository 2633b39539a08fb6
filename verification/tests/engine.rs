use codesift::engine::FileRead;
use codesift::error::Error;
use codesift::repository::{FileFacts, Repository, WalkEntry};
use codesift::types::{FileId, Range};
use codesift::{CodeSift, FileChange, TokenBudget};

fn walk(files: &[(&str, &str)]) -> (Repository, Vec<Result<Vec<u8>, String>>) {
    let walked = files
        .iter()
        .map(|(path, text)| WalkEntry {
            path: path.to_string(),
            is_file: true,
            facts: Some(FileFacts { size_bytes: text.len() as u64, modified_at: 0, content: text.as_bytes().to_vec() }),
        })
        .collect();
    let repo = Repository::from_walk("/repo".to_string(), walked);
    let reads = files.iter().map(|(_, text)| Ok(text.as_bytes().to_vec())).collect();
    (repo, reads)
}

fn index_one(path: &str, text: &str) -> CodeSift {
    let (repo, reads) = walk(&[(path, text)]);
    CodeSift::from_repository(&repo, "/repo".to_string(), &reads).unwrap()
}

const SAMPLE: &str = "fn caller() { callee(); }\nfn callee() {}\n";

#[test]
fn test_find_references_caller_callee_relationship() {
    let codesift = index_one("/repo/main.rs", "fn caller() { callee(); }\nfn callee() {}\n");

    let callers = codesift.get_callers(codesift.find_symbol("callee").first().map(|s| s.id).unwrap());

    assert!(!callers.is_empty(), "expected callee to have callers, got none");
    let caller_symbol = codesift.get_symbol(callers[0]).unwrap();
    assert_eq!(caller_symbol.name, "caller");
}

#[test]
fn building_indexes_files_symbols_and_calls() {
    let cs = index_one("/repo/main.rs", SAMPLE);
    assert_eq!(cs.file_count(), 1);
    assert_eq!(cs.symbol_count(), 2);
    assert_eq!(cs.repo_path(), Some("/repo"));
    let caller = cs.find_symbol("caller")[0].id;
    let callee = cs.find_symbol("callee")[0].id;
    assert_eq!(cs.get_callees(caller), vec![callee]);
    assert_eq!(cs.get_callers_upto(callee, 3), vec![(caller, 1)]);
    assert!(cs.get_callees_upto(callee, 3).is_empty());
    assert_eq!(cs.get_content(FileId::new(0)).unwrap(), &SAMPLE.as_bytes().to_vec());
    assert_eq!(cs.get_file(FileId::new(0)).unwrap().path, "/repo/main.rs");
    assert_eq!(cs.symbols().len(), 2);
    assert!(cs.searchable());
}

#[test]
fn source_is_the_range_of_the_content() {
    let cs = index_one("/repo/main.rs", SAMPLE);
    assert_eq!(cs.get_source(FileId::new(0), &Range::new(26, 40, 2, 2)), Some("fn callee() {}".to_string()));
    assert_eq!(cs.get_source(FileId::new(0), &Range::new(30, 99, 2, 2)), None);
    assert_eq!(cs.get_source(FileId::new(5), &Range::new(0, 1, 1, 1)), None);
    let accented = index_one("/repo/a.rs", "// \u{e9}\n");
    assert_eq!(accented.get_source(FileId::new(0), &Range::new(3, 5, 1, 1)), Some("\u{e9}".to_string()));
    assert_eq!(accented.get_source(FileId::new(0), &Range::new(3, 4, 1, 1)), None);
}

#[test]
fn engine_search_is_exact() {
    let cs = index_one("/repo/main.rs", SAMPLE);
    let found = cs.search("callee", None).unwrap();
    let lines: Vec<u32> = found.iter().map(|m| m.line_number).collect();
    assert_eq!(lines, vec![1, 2]);
    assert!(cs.search("CALLEE", Some(TokenBudget::new(10))).unwrap().is_empty());
}

#[test]
fn planning_takes_symbols_then_matches() {
    let cs = index_one("/repo/main.rs", SAMPLE);
    let plan = cs.plan_context("callee", None).unwrap();
    let names: Vec<String> = plan.fragments.iter().map(|f| f.symbol_name.clone().unwrap()).collect();
    assert_eq!(names, vec!["callee".to_string(), "match:fn caller() { callee(); }".to_string()]);
    assert_eq!(plan.fragments[0].content, "fn callee() {}");
    assert_eq!(plan.total_tokens, 11);
    assert_eq!(plan.total_files, 1);
    assert_eq!(plan.budget.max_tokens, 2000);
}

#[test]
fn reread_file_is_indexed_on_values() {
    let mut cs = index_one("/repo/main.rs", SAMPLE);
    let read = FileRead::Read { content: b"fn other() {}\n".to_vec(), meta: Some((14, 5)) };
    assert_eq!(cs.change_path(&FileChange::Modified("main.rs".to_string())), Some("/repo/main.rs".to_string()));
    cs.process_change(FileChange::Modified("main.rs".to_string()), read).unwrap();
    assert_eq!(cs.file_count(), 1);
    assert!(cs.find_symbol("caller").is_empty());
    assert_eq!(cs.find_symbol("other").len(), 1);
    let entry = cs.get_file(FileId::new(1)).unwrap();
    assert_eq!((entry.path.as_str(), entry.size_bytes, entry.modified_at), ("/repo/main.rs", 14, 5));
    assert_eq!(cs.get_content(FileId::new(1)).unwrap(), &b"fn other() {}\n".to_vec());
}

#[test]
fn missing_file_is_removed_on_values() {
    let mut cs = index_one("/repo/main.rs", SAMPLE);
    cs.process_change(FileChange::Created("/repo/main.rs".to_string()), FileRead::Missing).unwrap();
    assert_eq!(cs.file_count(), 0);
    assert!(cs.find_symbol("caller").is_empty());

    let mut cs = index_one("/repo/main.rs", SAMPLE);
    cs.process_change(FileChange::Deleted("/repo/main.rs".to_string()), FileRead::Missing).unwrap();
    assert_eq!(cs.file_count(), 0);
    assert_eq!(cs.change_path(&FileChange::Deleted("main.rs".to_string())), None);
}

#[test]
fn failed_reads_change_nothing() {
    let mut cs = index_one("/repo/main.rs", SAMPLE);
    let r = cs.process_change(FileChange::Modified("main.rs".to_string()), FileRead::Failed("denied".to_string()));
    assert_eq!(r, Err(Error::Io("denied".to_string())));
    let r = cs.process_change(FileChange::Modified("main.rs".to_string()), FileRead::Read { content: vec![], meta: None });
    assert_eq!(r, Err(Error::FileNotFound("/repo/main.rs".to_string())));
    let r = cs.process_change(FileChange::Created("Makefile".to_string()), FileRead::Read { content: vec![], meta: Some((0, 0)) });
    assert_eq!(r, Err(Error::FileNotFound("/repo/Makefile".to_string())));
    assert_eq!(cs.file_count(), 1);
    assert_eq!(cs.symbol_count(), 2);
}

#[test]
fn changes_need_a_repository() {
    let mut cs = CodeSift::new();
    let r = cs.process_change(FileChange::Deleted("a.rs".to_string()), FileRead::Missing);
    assert_eq!(r, Err(Error::Index("No repository path set".to_string())));
    assert_eq!(cs.repo_path(), None);
    let (repo, reads) = walk(&[("/repo/a.rs", "fn a() {}")]);
    assert_eq!(cs.reindex(&repo, &reads), Err(Error::Index("No repository path set".to_string())));
}

#[test]
fn reindex_rebuilds_from_a_fresh_scan() {
    let mut cs = index_one("/repo/main.rs", SAMPLE);
    let (repo, reads) = walk(&[("/repo/x.rs", "fn x() {}"), ("/repo/y.py", "def y():\n    pass\n")]);
    cs.reindex(&repo, &reads).unwrap();
    assert_eq!(cs.file_count(), 2);
    assert!(cs.find_symbol("caller").is_empty());
    assert_eq!(cs.find_symbol("y").len(), 1);
}

#[test]
fn unreadable_files_stop_the_build() {
    let (repo, _) = walk(&[("/repo/a.rs", "fn a() {}")]);
    let reads = vec![Err("permission denied".to_string())];
    let r = CodeSift::from_repository(&repo, "/repo".to_string(), &reads);
    assert_eq!(r.err(), Some(Error::Io("permission denied".to_string())));
}

fn read_of(text: &str) -> FileRead {
    FileRead::Read { content: text.as_bytes().to_vec(), meta: Some((text.len() as u64, 1)) }
}

#[test]
fn test_process_change_created() {
    let mut codesift = index_one("/repo/test.rs", "fn main() {}\n");
    let initial_count = codesift.symbol_count();
    codesift.process_change(FileChange::Created("/repo/new_file.rs".to_string()), read_of("struct Foo {}\n")).unwrap();
    assert!(codesift.symbol_count() >= initial_count);
    assert_eq!(codesift.symbol_count(), 2);
    assert_eq!(codesift.file_count(), 2);
}

#[test]
fn test_process_change_modified() {
    let mut codesift = index_one("/repo/test.rs", "fn original() {}\n");
    codesift
        .process_change(FileChange::Modified("/repo/test.rs".to_string()), read_of("fn modified() {}\nfn another() {}\n"))
        .unwrap();
    assert!(codesift.symbol_count() >= 1);
    assert_eq!(codesift.symbol_count(), 2);
    assert!(codesift.find_symbol("original").is_empty());
}

#[test]
fn test_process_change_deleted() {
    let mut codesift = index_one("/repo/delete_me.rs", "fn will_delete() {}\n");
    let initial_count = codesift.file_count();
    codesift.process_change(FileChange::Deleted("/repo/delete_me.rs".to_string()), FileRead::Missing).unwrap();
    assert!(codesift.file_count() < initial_count);
}

#[test]
fn test_reindex() {
    let mut codesift = index_one("/repo/test.rs", "fn test() {}\n");
    let (repo, reads) = walk(&[("/repo/test.rs", "fn test() {}\n")]);
    codesift.reindex(&repo, &reads).unwrap();
    assert!(codesift.symbol_count() >= 1);
}

use codesift::report::{compact_report, full_report};

#[test]
fn compact_report_lists_files_and_counts() {
    let cs = index_one("/repo/main.rs", SAMPLE);
    let plan = cs.plan_context("callee", None).unwrap();
    assert_eq!(
        compact_report(&cs, "callee", &plan),
        "/repo/main.rs:2-2,1-1 [\"callee\", \"match:fn caller() { callee(); }\"]\n\nTokens: 11/2000\nFiles: 1\nSymbols: 2\n"
    );
    let empty = cs.plan_context("zzz", None).unwrap();
    assert_eq!(compact_report(&cs, "zzz", &empty), "No results found for: zzz\n");
}

#[test]
fn full_report_shows_each_fragment() {
    let cs = index_one("/repo/main.rs", SAMPLE);
    let plan = cs.plan_context("callee", Some(TokenBudget::new(2000).with_symbols(1))).unwrap();
    assert_eq!(full_report(&cs, &plan), "=== /repo/main.rs:2 ===\nSymbol: callee\nfn callee() {}\n\n");
}

#[test]
fn planning_keeps_to_a_small_token_budget() {
    let cs = index_one("/repo/main.rs", SAMPLE);
    // The symbol takes 4 tokens; the first line's 7 do not fit in the 2 left, and even
    // its note does not, so it is left out.
    let plan = cs.plan_context("callee", Some(TokenBudget::new(6))).unwrap();
    let names: Vec<String> = plan.fragments.iter().map(|f| f.symbol_name.clone().unwrap()).collect();
    assert_eq!(names, vec!["callee".to_string()]);
    assert_eq!(plan.total_tokens, 4);
    assert!(plan.total_tokens <= 6);
}
