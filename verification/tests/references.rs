use codesift::repository::{FileFacts, Repository, WalkEntry};
use codesift::types::Relationship;
use codesift::CodeSift;

fn open(files: &[(&str, &str)]) -> CodeSift {
    let walked = files
        .iter()
        .map(|(name, text)| WalkEntry {
            path: format!("/repo/{}", name),
            is_file: true,
            facts: Some(FileFacts { size_bytes: text.len() as u64, modified_at: 0, content: text.as_bytes().to_vec() }),
        })
        .collect();
    let repo = Repository::from_walk("/repo".to_string(), walked);
    let reads = files.iter().map(|(_, text)| Ok(text.as_bytes().to_vec())).collect();
    CodeSift::from_repository(&repo, "/repo".to_string(), &reads).unwrap()
}

struct Case {
    label: &'static str,
    setup: Vec<(&'static str, &'static str)>,
    query: &'static str,
    want_references: bool,
    want_definition: bool,
}

fn run_case(case: Case) {
    let codesift = open(&case.setup);
    let refs = codesift.find_references(case.query);
    let defs = codesift.get_definition(case.query);
    assert_eq!(!refs.is_empty(), case.want_references, "{}: references for '{}'", case.label, case.query);
    assert_eq!(!defs.is_empty(), case.want_definition, "{}: definition for '{}'", case.label, case.query);
}

#[test]
fn test_reference_resolution_table() {
    let cases = vec![
        Case {
            label: "intra_file_call",
            setup: vec![("main.rs", "fn helper() {}\nfn main() { helper(); }\n")],
            query: "helper",
            want_references: true,
            want_definition: true,
        },
        Case {
            label: "definition_only",
            setup: vec![("b.rs", "fn unused() {}")],
            query: "unused",
            want_references: false,
            want_definition: true,
        },
        Case {
            label: "no_match",
            setup: vec![("c.rs", "fn main() {}")],
            query: "nonexistent",
            want_references: false,
            want_definition: false,
        },
        Case {
            label: "cross_file_call",
            setup: vec![("lib.rs", "pub fn shared() {}"), ("main.rs", "fn start() { shared(); }")],
            query: "shared",
            want_references: true,
            want_definition: true,
        },
    ];
    for case in cases {
        run_case(case);
    }
}

#[test]
fn test_get_definition_returns_symbol() {
    let codesift = open(&[("main.rs", "fn my_func() {}")]);
    let defs = codesift.get_definition("my_func");
    assert_eq!(defs.len(), 1);
    assert_eq!(defs[0].name, "my_func");
    assert_eq!(defs[0].file_id, defs[0].file_id);
}

#[test]
fn test_resolve_references_across_files() {
    let codesift = open(&[("lib.rs", "pub fn shared() {}"), ("main.rs", "fn start() { shared(); }")]);
    let refs = codesift.find_references("shared");
    assert!(!refs.is_empty(), "expected cross-file reference");
    let (_, rel) = refs[0];
    assert_eq!(rel, Relationship::Calls);
}

#[test]
fn test_definition_and_reference_in_same_file() {
    let codesift = open(&[("main.rs", "fn target() {}\nfn source() { target(); }\n")]);
    let defs = codesift.get_definition("target");
    let refs = codesift.find_references("target");
    assert_eq!(defs.len(), 1, "expected exactly 1 definition");
    assert_eq!(defs[0].name, "target");
    assert_eq!(refs.len(), 1, "expected exactly 1 reference");
    assert_eq!(refs[0].0.name, "source");
    assert_eq!(refs[0].1, Relationship::Calls);
}

#[test]
fn method_calls_resolve_by_their_last_name() {
    let codesift = open(&[("a.py", "class A:\n    def run(self):\n        self.step()\n    def step(self):\n        pass\n")]);
    let refs = codesift.find_references("step");
    assert_eq!(refs.len(), 1);
    assert_eq!(refs[0].0.name, "run");
}

#[test]
fn each_call_site_is_a_reference() {
    let codesift = open(&[("main.rs", "fn t() {}\nfn s() { t(); t(); }\nfn u() { t(); }\n")]);
    let names: Vec<String> = codesift.find_references("t").iter().map(|(s, _)| s.name.clone()).collect();
    assert_eq!(names, vec!["s", "s", "u"]);
    let s = codesift.find_symbol("s")[0].id;
    assert_eq!(codesift.get_callees(s).len(), 2);
    assert!(codesift.find_references("s").is_empty());
}

#[test]
fn reindexing_links_calls_again() {
    let mut codesift = open(&[("main.rs", "fn t() {}\nfn s() { t(); }\n")]);
    let walked = vec![WalkEntry {
        path: "/repo/main.rs".to_string(),
        is_file: true,
        facts: Some(FileFacts { size_bytes: 0, modified_at: 0, content: b"fn t() {}\nfn s() { t(); }\n".to_vec() }),
    }];
    let repo = Repository::from_walk("/repo".to_string(), walked);
    codesift.reindex(&repo, &vec![Ok(b"fn t() {}\nfn s() { t(); }\n".to_vec())]).unwrap();
    assert_eq!(codesift.get_definition("t").len(), 1);
    let refs = codesift.find_references("t");
    assert_eq!(refs.len(), 1);
    let s = codesift.find_symbol("s")[0].id;
    assert_eq!(codesift.get_callees(s).len(), 1);
}
