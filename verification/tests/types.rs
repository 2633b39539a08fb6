use codesift::error::Error;
use codesift::types::{FileEntry, FileId, Language, Range, Relationship, Symbol, SymbolId, SymbolKind};

#[test]
fn language_names_and_grammars() {
    assert_eq!(Language::from_extension("tsx"), Language::TypeScript);
    assert_eq!(Language::from_extension("h"), Language::Cpp);
    assert_eq!(Language::from_extension("c"), Language::C);
    assert_eq!(Language::from_extension("md"), Language::Markdown);
    assert_eq!(Language::Rust.name(), "Rust");
    assert_eq!(Language::Rust.tree_sitter_lang(), Some("rust"));
    assert_eq!(Language::Toml.tree_sitter_lang(), None);
}

#[test]
fn range_relations_on_values() {
    let a = Range::new(0, 10, 1, 3);
    let b = Range::new(5, 15, 2, 4);
    let c = Range::new(10, 20, 3, 5);
    assert!(a.overlaps(&b) && b.overlaps(&a));
    assert!(!a.overlaps(&c) && !c.overlaps(&a));
    assert!(a.contains_range(&a));
    assert!(!a.contains_range(&b));
    assert!(a.contains(0) && a.contains(9) && !a.contains(10));
    assert_eq!(a.line_count(), 3);
    assert_eq!(Range::new(0, 0, 5, 2).line_count(), 1);
}

#[test]
fn kinds_and_relationships() {
    assert!(SymbolKind::Function.is_definition());
    assert!(!SymbolKind::Call.is_definition());
    assert!(SymbolKind::Import.is_reference());
    assert_eq!(SymbolKind::Struct.name(), "Struct");
    assert!(Relationship::Calls.is_directed());
    assert!(!Relationship::References.is_directed());
}

#[test]
fn symbols_take_a_parent_and_a_signature() {
    let s = Symbol::new(SymbolId::new(3), "f".to_string(), SymbolKind::Function, FileId::new(1), Range::new(0, 1, 1, 1))
        .with_parent(SymbolId::new(2))
        .with_signature("fn f()".to_string());
    assert_eq!(s.parent, Some(SymbolId::new(2)));
    assert_eq!(s.signature.as_deref(), Some("fn f()"));
    assert_eq!(s.id, SymbolId::new(3));
}

#[test]
fn file_entries_from_content() {
    let e = FileEntry::from_parts("/r/a.PY".to_string(), 12, 99, b"x = 1\ny = \0\n").unwrap();
    assert_eq!(e.language, Language::Python);
    assert_eq!(e.line_count, 3);
    assert!(e.is_binary);
    assert_eq!((e.size_bytes, e.modified_at), (12, 99));
    assert!(!e.is_generated && !e.is_vendor);
    assert!(FileEntry::from_parts("/r/Makefile".to_string(), 0, 0, b"").is_none());
}

#[test]
fn error_messages_name_their_kind() {
    assert_eq!(Error::Repository("gone".to_string()).message(), "repository error: gone");
    assert_eq!(Error::Index("x".to_string()).message(), "index error: x");
    assert_eq!(Error::Parse("x".to_string()).message(), "parse error: x");
    assert_eq!(Error::Search("x".to_string()).message(), "search error: x");
    assert_eq!(Error::Io("x".to_string()).message(), "io error: x");
    assert_eq!(Error::SymbolNotFound("x".to_string()).message(), "symbol not found: x");
    assert_eq!(Error::FileNotFound("x".to_string()).message(), "file not found: x");
}
