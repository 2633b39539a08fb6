use codesift::storage::{files_changed, Storage};

fn table(rows: &[(&str, u64, u64)]) -> Vec<(String, (u64, u64))> {
    rows.iter().map(|(p, h, t)| (p.to_string(), (*h, *t))).collect()
}

#[test]
fn cache_lives_in_the_repository() {
    assert_eq!(Storage::new("/repo").cache_dir(), "/repo/.codesift");
    assert_eq!(Storage::new("/repo/").cache_dir(), "/repo/.codesift");
}

#[test]
fn same_files_unchanged_on_values() {
    let files = table(&[("/r/a.rs", 1, 10), ("/r/b.rs", 2, 20)]);
    assert!(!files_changed(&files, &files));
    assert!(!files_changed(&[], &[]));
}

#[test]
fn reordered_files_are_unchanged() {
    let cached = table(&[("/r/a.rs", 1, 10), ("/r/b.rs", 2, 20)]);
    let current = table(&[("/r/b.rs", 2, 20), ("/r/a.rs", 1, 10)]);
    assert!(!files_changed(&cached, &current));
}

#[test]
fn altered_file_is_a_change_on_values() {
    let cached = table(&[("/r/a.rs", 1, 10), ("/r/b.rs", 2, 20)]);
    assert!(files_changed(&cached, &table(&[("/r/a.rs", 1, 10), ("/r/b.rs", 3, 20)])));
    assert!(files_changed(&cached, &table(&[("/r/a.rs", 1, 11), ("/r/b.rs", 2, 20)])));
    assert!(files_changed(&cached, &table(&[("/r/a.rs", 1, 10)])));
    assert!(files_changed(&cached, &table(&[("/r/a.rs", 1, 10), ("/r/b.rs", 2, 20), ("/r/c.rs", 3, 30)])));
}

use codesift::index::Index;
use codesift::storage::{frame_data, unframe_data, version_mismatch, CACHE_VERSION};
use codesift::types::{FileEntry, FileId, Range, Relationship, Symbol, SymbolId, SymbolKind};

#[test]
fn framing_puts_the_length_first() {
    assert_eq!(frame_data(b"abc"), vec![3, 0, 0, 0, 0, 0, 0, 0, b'a', b'b', b'c']);
    assert_eq!(frame_data(b""), vec![0; 8]);
    let big = vec![7u8; 300];
    assert_eq!(&frame_data(&big)[..8], &[44, 1, 0, 0, 0, 0, 0, 0]);
}

#[test]
fn framed_data_reads_back_on_values() {
    let payload = b"{\"files\":[]}".to_vec();
    assert_eq!(unframe_data(&frame_data(&payload)), Some(payload));
    let mut longer = frame_data(b"xy");
    longer.extend_from_slice(b"trailing");
    assert_eq!(unframe_data(&longer), Some(b"xy".to_vec()));
}

#[test]
fn short_data_is_refused() {
    assert_eq!(unframe_data(&[1, 0, 0]), None);
    assert_eq!(unframe_data(&[5, 0, 0, 0, 0, 0, 0, 0, b'a']), None);
    assert_eq!(unframe_data(&[255; 8]), None);
}

#[test]
fn other_versions_are_refused() {
    assert_eq!(version_mismatch(CACHE_VERSION), None);
    assert_eq!(version_mismatch(7), Some("Cache version mismatch: expected 1, got 7".to_string()));
}

fn entry(id: u64, path: &str) -> FileEntry {
    let mut e = FileEntry::from_parts(path.to_string(), 1, 2, b"x").unwrap();
    e.id = FileId::new(id);
    e
}

fn sym(id: u64, name: &str, file: u64) -> Symbol {
    Symbol::new(SymbolId::new(id), name.to_string(), SymbolKind::Function, FileId::new(file), Range::new(0, 1, 1, 1))
}

#[test]
fn restored_index_is_the_saved_one_on_values() {
    let idx = Index::restore(
        vec![entry(3, "/r/b.rs"), entry(0, "/r/a.rs")],
        vec![("/r/a.rs".to_string(), 0), ("/r/b.rs".to_string(), 3)],
        vec![sym(5, "late", 3), sym(1, "early", 0), sym(2, "early", 3)],
        vec![(1, 5, Relationship::Calls)],
        4,
        6,
    )
    .unwrap();
    assert_eq!(idx.file_count(), 2);
    assert_eq!(idx.get_file_by_path("/r/b.rs").unwrap().id, FileId::new(3));
    assert_eq!(idx.find_symbols_by_name("early"), vec![SymbolId::new(1), SymbolId::new(2)]);
    assert_eq!(idx.symbols_in_file(FileId::new(3)).len(), 2);
    assert_eq!(idx.get_references(SymbolId::new(1)).to_vec(), vec![(SymbolId::new(5), Relationship::Calls)]);
    assert_eq!((idx.next_file_id(), idx.next_symbol_id()), (4, 6));
    assert!(idx.get_content(FileId::new(0)).is_none());
}

#[test]
fn ids_past_the_next_id_are_refused() {
    assert!(Index::restore(vec![entry(4, "/r/a.rs")], vec![], vec![], vec![], 4, 0).is_none());
    assert!(Index::restore(vec![], vec![], vec![sym(9, "s", 0)], vec![], 0, 9).is_none());
    assert!(Index::restore(vec![], vec![], vec![], vec![], 0, 0).is_some());
}
