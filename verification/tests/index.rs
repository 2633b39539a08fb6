use codesift::index::{Index, TokenBudget};
use codesift::types::{FileEntry, FileId, Range, Relationship, Symbol, SymbolId, SymbolKind};

fn entry(path: &str, text: &str) -> FileEntry {
    FileEntry::from_parts(path.to_string(), text.len() as u64, 7, text.as_bytes()).unwrap()
}

fn symbol(name: &str, file: FileId, start: usize, end: usize, line: u32) -> Symbol {
    Symbol::new(SymbolId::new(0), name.to_string(), SymbolKind::Function, file, Range::new(start, end, line, line))
}

#[test]
fn added_symbol_is_found_by_name_on_values() {
    let mut index = Index::new();
    let file = index.add_file(entry("/r/a.rs", "fn alpha() {}\n"));
    let id = index.add_symbol(symbol("alpha", file, 0, 13, 1));
    assert_eq!(index.find_symbols_by_name("alpha"), vec![id]);
    assert!(index.find_symbols_by_name("beta").is_empty());
    assert_eq!(index.get_symbol(id).unwrap().id, id);
    assert_eq!(index.symbol_count(), 1);
}

#[test]
fn ids_are_handed_out_in_order() {
    let mut index = Index::new();
    let a = index.add_file(entry("/r/a.rs", "a"));
    let b = index.add_file(entry("/r/b.rs", "b"));
    assert_eq!(a, FileId::new(0));
    assert_eq!(b, FileId::new(1));
    assert_eq!(index.next_file_id(), 2);
    let s = index.add_symbol(symbol("x", a, 0, 1, 1));
    let t = index.add_symbol(symbol("y", b, 0, 1, 1));
    assert_eq!((s, t), (SymbolId::new(0), SymbolId::new(1)));
    assert_eq!(index.next_symbol_id(), 2);
}

#[test]
fn stored_content_is_read_back_on_values() {
    let mut index = Index::new();
    let file = index.add_file(entry("/r/a.rs", "abc"));
    assert!(index.get_content(file).is_none());
    index.store_content(file, b"abc".to_vec());
    assert_eq!(index.get_content(file).unwrap(), &b"abc".to_vec());
    index.clear_content(file);
    assert!(index.get_content(file).is_none());
}

#[test]
fn added_file_is_found_on_values() {
    let mut index = Index::new();
    let file = index.add_file(entry("/r/src/lib.rs", "line one\nline two\n"));
    let found = index.get_file_by_path("/r/src/lib.rs").unwrap();
    assert_eq!(found.id, file);
    assert_eq!(found.line_count, 3);
    assert!(index.has_file("/r/src/lib.rs"));
    assert!(!index.has_file("/r/src/main.rs"));
    assert_eq!(index.file_count(), 1);
    assert_eq!(index.file_paths(), vec!["/r/src/lib.rs".to_string()]);
}

#[test]
fn removed_file_leaves_nothing_on_values() {
    let mut index = Index::new();
    let a = index.add_file(entry("/r/a.rs", "fn a() {}"));
    let b = index.add_file(entry("/r/b.rs", "fn b() {}"));
    let sa = index.add_symbol(symbol("a", a, 0, 9, 1));
    let sb = index.add_symbol(symbol("b", b, 0, 9, 1));
    index.add_reference(sa, sb, Relationship::Calls);
    index.store_content(a, b"fn a() {}".to_vec());

    let removed = index.remove_file_by_path("/r/a.rs").unwrap();
    assert_eq!(removed.id, a);
    assert!(index.get_file_by_path("/r/a.rs").is_none());
    assert!(index.get_file(a).is_none());
    assert!(index.get_symbol(sa).is_none());
    assert!(index.find_symbols_by_name("a").is_empty());
    assert!(index.symbols_in_file(a).is_empty());
    assert!(index.get_content(a).is_none());
    assert!(index.get_references(sa).is_empty());
    assert_eq!(index.symbols_in_file(b).len(), 1);
    assert!(index.remove_file_by_path("/r/a.rs").is_none());
    assert_eq!(index.file_count(), 1);
}

#[test]
fn references_are_kept_per_symbol() {
    let mut index = Index::new();
    let f = index.add_file(entry("/r/a.rs", "x"));
    let s = index.add_symbol(symbol("s", f, 0, 1, 1));
    let t = index.add_symbol(symbol("t", f, 0, 1, 1));
    index.add_reference(s, t, Relationship::Calls);
    index.add_reference(s, t, Relationship::References);
    assert_eq!(index.get_references(s).to_vec(), vec![(t, Relationship::Calls), (t, Relationship::References)]);
    assert!(index.get_references(t).is_empty());
}

#[test]
fn update_file_symbols_replaces_the_old_ones() {
    let mut index = Index::new();
    let f = index.add_file(entry("/r/a.rs", "x"));
    let old = index.add_symbol(symbol("old", f, 0, 1, 1));
    index.update_file_symbols(f, vec![symbol("new_one", f, 0, 1, 1), symbol("new_two", f, 1, 2, 1)], vec![]);
    assert!(index.get_symbol(old).is_none());
    assert!(index.find_symbols_by_name("old").is_empty());
    assert_eq!(index.find_symbols_by_name("new_one").len(), 1);
    assert_eq!(index.symbols_in_file(f).len(), 2);
}

#[test]
fn budget_builders_set_their_field() {
    let b = TokenBudget::new(500).with_files(3).with_symbols(4).with_depth(5);
    assert_eq!((b.max_tokens, b.max_files, b.max_symbols, b.max_depth), (500, 3, 4, 5));
    let d = TokenBudget::default();
    assert_eq!((d.max_tokens, d.max_files, d.max_symbols, d.max_depth), (2000, 10, 20, 3));
}

#[test]
fn files_and_symbols_come_in_id_order() {
    let mut index = Index::new();
    let mut ids = Vec::new();
    for name in ["e", "d", "c", "b", "a", "z", "y", "x"] {
        ids.push(index.add_file(entry(&format!("/r/{}.rs", name), name)));
    }
    let _ = index.remove_file_by_path("/r/c.rs");
    let listed: Vec<u64> = index.files().iter().map(|f| f.id.0).collect();
    assert_eq!(listed, vec![0, 1, 3, 4, 5, 6, 7]);
    let mut syms = Vec::new();
    for k in 0..6u32 {
        syms.push(index.add_symbol(symbol(&format!("s{}", k), ids[0], 0, 1, k + 1)));
    }
    let names: Vec<String> = index.symbols().iter().map(|s| s.name.clone()).collect();
    assert_eq!(names, vec!["s0", "s1", "s2", "s3", "s4", "s5"]);
}

#[test]
fn content_with_few_lines_fits() {
    let mut index = Index::new();
    let file = index.add_file(entry("/r/a.rs", "a\nb\n"));
    index.store_content(file, b"a\nb\n".to_vec());
    assert!(index.all_contents_fit());
    assert!(codesift::search::content_fits_exec(b"one\ntwo\n"));
}

#[test]
fn symbol_changed_in_place_is_read_back() {
    let mut index = Index::new();
    let file = index.add_file(entry("/r/a.rs", "fn alpha() {}\n"));
    let id = index.add_symbol(symbol("alpha", file, 0, 13, 1));
    if let Some(s) = index.get_symbol_mut(id) {
        s.signature = Some("fn alpha()".to_string());
    }
    assert_eq!(index.get_symbol(id).unwrap().signature.as_deref(), Some("fn alpha()"));
    assert_eq!(index.find_symbols_by_name("alpha"), vec![id]);
    assert!(index.get_symbol_mut(SymbolId::new(9)).is_none());
}
