use codesift::error::Error;
use codesift::parser::Parser;
use codesift::types::{FileId, Language, Range, SymbolId, SymbolKind, Visibility};

fn outline(pf: &codesift::parser::ParsedFile) -> Vec<(u64, String, SymbolKind, Option<SymbolId>)> {
    pf.symbols.iter().map(|s| (s.id.0, s.name.clone(), s.kind, s.parent)).collect()
}

#[test]
fn rust_items_are_extracted_in_order() {
    let src = "struct Point { x: i32 }\nimpl Point {\n    fn new() -> Point { make() }\n}\n";
    let pf = Parser::new().parse(src.as_bytes(), Language::Rust, FileId::new(7)).unwrap();
    assert_eq!(
        outline(&pf),
        vec![
            (0, "Point".to_string(), SymbolKind::Struct, None),
            (1, "Point".to_string(), SymbolKind::Impl, None),
            (2, "new".to_string(), SymbolKind::Function, Some(SymbolId::new(1))),
        ]
    );
    assert_eq!(pf.symbols[0].range, Range::new(0, 23, 1, 1));
    assert_eq!(pf.symbols[1].range.start_line, 2);
    assert_eq!(pf.symbols[1].range.end_line, 4);
    assert_eq!(pf.symbols[2].file_id, FileId::new(7));
    assert_eq!(pf.symbols[2].visibility, Visibility::Public);
    assert!(pf.symbols[2].signature.is_none());
    assert_eq!(pf.calls.len(), 1);
    assert_eq!(pf.calls[0].callee_name, "make");
    assert_eq!(pf.calls[0].caller, Some(SymbolId::new(2)));
    assert_eq!(pf.calls[0].range.start_line, 3);
    assert!(pf.references.is_empty());
}

#[test]
fn extracted_symbols_are_numbered_on_values() {
    let src = "fn a() {}\nfn b() { a(); }\nconst C: u8 = 1;\nenum E { X }\ntrait T {}\n";
    let pf = Parser::new().parse(src.as_bytes(), Language::Rust, FileId::new(0)).unwrap();
    let ids: Vec<u64> = pf.symbols.iter().map(|s| s.id.0).collect();
    assert_eq!(ids, vec![0, 1, 2, 3, 4]);
    let kinds: Vec<SymbolKind> = pf.symbols.iter().map(|s| s.kind).collect();
    assert_eq!(kinds, vec![SymbolKind::Function, SymbolKind::Function, SymbolKind::Constant, SymbolKind::Enum, SymbolKind::Trait]);
}

#[test]
fn python_classes_and_functions() {
    let src = "class A:\n    def run(self):\n        go()\n";
    let pf = Parser::new().parse(src.as_bytes(), Language::Python, FileId::new(0)).unwrap();
    assert_eq!(
        outline(&pf),
        vec![(0, "A".to_string(), SymbolKind::Class, None), (1, "run".to_string(), SymbolKind::Function, Some(SymbolId::new(0)))]
    );
    assert_eq!(pf.calls.len(), 1);
    assert_eq!(pf.calls[0].callee_name, "go");
    assert_eq!(pf.calls[0].caller, Some(SymbolId::new(1)));
}

#[test]
fn javascript_and_typescript_share_a_grammar() {
    // The first child of kind `identifier` or `function` (`class`) names the symbol, and
    // the keyword comes first.
    let src = "function f() { g(); }\nclass K {}\n";
    for lang in [Language::JavaScript, Language::TypeScript] {
        let pf = Parser::new().parse(src.as_bytes(), lang, FileId::new(0)).unwrap();
        assert_eq!(
            outline(&pf),
            vec![(0, "function".to_string(), SymbolKind::Function, None), (1, "class".to_string(), SymbolKind::Class, None)]
        );
        assert_eq!(pf.calls[0].callee_name, "g");
        assert_eq!(pf.calls[0].caller, Some(SymbolId::new(0)));
    }
}

#[test]
fn other_languages_are_refused() {
    let r = Parser::default().parse(b"package main", Language::Go, FileId::new(0));
    assert_eq!(r.err(), Some(Error::Parse("unsupported language: Go".to_string())));
    let r = Parser::new().parse(b"", Language::Unknown, FileId::new(0));
    assert_eq!(r.err(), Some(Error::Parse("unsupported language: Unknown".to_string())));
}
