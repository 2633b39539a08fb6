use codesift::retrieval::{analyze_query, RetrievalMode};

#[test]
fn test_analyze_query_natural_language() {
    assert_eq!(analyze_query("How does the cache work?"), RetrievalMode::Hybrid);
    assert_eq!(analyze_query("What is the token budget?"), RetrievalMode::Hybrid);
}

#[test]
fn test_analyze_query_identifier() {
    assert_eq!(analyze_query("calculate_sum"), RetrievalMode::Lexical);
    assert_eq!(analyze_query("MyStruct::new"), RetrievalMode::Lexical);
}

#[test]
fn test_analyze_query_long() {
    let query = "How do I implement the authentication middleware for the API?";
    assert_eq!(analyze_query(query), RetrievalMode::Hybrid);
}

use codesift::index::Index;
use codesift::retrieval::{lexical_only, semantic_fragments, text_fragments_exec};
use codesift::types::{FileEntry, FileId, Range};
use codesift::TokenBudget;

#[test]
fn fragments_are_the_code_lines() {
    let text = "// note\nfn a() {\n\n    # tag\n  let x = 1;\n}\n";
    let frags = text_fragments_exec(text, FileId::new(3));
    let ids: Vec<&str> = frags.iter().map(|f| f.id.as_str()).collect();
    assert_eq!(ids, vec!["3:1", "3:4", "3:5"]);
    assert_eq!(frags[0].text, "fn a() {");
    assert_eq!(frags[0].range, Range::new(8, 16, 2, 2));
    assert_eq!(frags[1].text, "  let x = 1;");
    assert_eq!(frags[1].range, Range::new(28, 40, 5, 5));
}

#[test]
fn retrieval_reads_the_stored_contents() {
    let mut index = Index::new();
    let text = "fn Alpha() {}\n// alpha\n";
    let a = index.add_file(FileEntry::from_parts("/r/a.rs".to_string(), 0, 0, text.as_bytes()).unwrap());
    index.store_content(a, text.as_bytes().to_vec());
    let frags = semantic_fragments(&index);
    assert_eq!(frags.len(), 1);
    assert_eq!(frags[0].id, "0:0");
    let found = lexical_only("ALPHA", &index, &TokenBudget::default());
    let lines: Vec<u32> = found.iter().map(|m| m.line_number).collect();
    assert_eq!(lines, vec![1, 2]);
}
