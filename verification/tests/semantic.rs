use codesift::semantic::tokenize_code;

#[test]
fn test_tokenize_code() {
    let code = "fn main() { let x = 5; }";
    let tokens = tokenize_code(code);
    assert!(tokens.contains(&"main".to_string()));
    assert!(tokens.contains(&"x".to_string()));
}

use codesift::semantic::{count_terms, is_stop_word};

fn strings(v: &[&str]) -> Vec<String> {
    v.iter().map(|s| s.to_string()).collect()
}

#[test]
fn tokens_are_lowercased_alphanumeric_runs() {
    assert_eq!(tokenize_code("Parse_File(x1, Y2)"), strings(&["parse", "file", "x1", "y2"]));
    assert_eq!(tokenize_code("ÄRGER über"), strings(&["ärger", "über"]));
    assert!(tokenize_code("  ,;() ").is_empty());
}

#[test]
fn tokens_have_no_stop_words_on_values() {
    let tokens = tokenize_code("if x { return None } else { while true { for y in z {} } }");
    assert_eq!(tokens, strings(&["x", "y", "in", "z"]));
    for t in &tokens {
        assert!(!is_stop_word(t));
    }
    assert!(is_stop_word("nil"));
    assert!(!is_stop_word("If"));
}

#[test]
fn term_counts_are_percentages_on_values() {
    let tokens = strings(&["a", "b", "a", "c"]);
    assert_eq!(count_terms(&tokens), vec![("a".to_string(), 50), ("b".to_string(), 25), ("c".to_string(), 25)]);
    let many: Vec<String> = (0..150).map(|i| if i == 0 { "rare".to_string() } else { "common".to_string() }).collect();
    assert_eq!(count_terms(&many), vec![("rare".to_string(), 1), ("common".to_string(), 99)]);
    assert!(count_terms(&[]).is_empty());
}

use codesift::semantic::document_frequencies;

#[test]
fn document_frequencies_count_documents_not_occurrences() {
    let docs = vec![strings(&["a", "b", "a"]), strings(&["b", "c"]), strings(&[]), strings(&["a"])];
    assert_eq!(
        document_frequencies(&docs),
        vec![("a".to_string(), 2), ("b".to_string(), 2), ("c".to_string(), 1)]
    );
    assert!(document_frequencies(&vec![]).is_empty());
}
