use codesift::types::Language;

#[test]
fn test_language_detection() {
    assert_eq!(Language::from_extension("rs"), Language::Rust);
    assert_eq!(Language::from_extension("py"), Language::Python);
    assert_eq!(Language::from_extension("JS"), Language::JavaScript);
    assert_eq!(Language::from_extension("xyz"), Language::Unknown);
}

use codesift::repository::{FileFacts, Repository, WalkEntry};
use codesift::types::FileId;
use codesift::paths::join_path;

fn file(path: &str, content: &str) -> WalkEntry {
    WalkEntry {
        path: path.to_string(),
        is_file: true,
        facts: Some(FileFacts { size_bytes: content.len() as u64, modified_at: 3, content: content.as_bytes().to_vec() }),
    }
}

#[test]
fn walk_decision_skips_what_is_not_indexed() {
    assert_eq!(Repository::walk_decision("/r", "/r/src/a.rs", true), Some(Language::Rust));
    assert_eq!(Repository::walk_decision("/r", "/r/target", false), None);
    assert_eq!(Repository::walk_decision("/r", "/r/node_modules", true), None);
    assert_eq!(Repository::walk_decision("/r", "/r/src/target.py", true), Some(Language::Python));
    assert_eq!(Repository::walk_decision("/r", "/r/src", false), None);
    assert_eq!(Repository::walk_decision("/r", "/r/README", true), None);
    assert_eq!(Repository::walk_decision("/r", "/r/data.bin", true), None);
}

#[test]
fn scan_numbers_the_accepted_files_in_walk_order() {
    let walked = vec![
        file("/r/b.rs", "fn b() {}"),
        WalkEntry { path: "/r/src".to_string(), is_file: false, facts: None },
        file("/r/notes.txt", "text"),
        file("/r/vendor/lib.js", "x\n"),
        WalkEntry { path: "/r/unread.rs".to_string(), is_file: true, facts: None },
        file("/r/api.pb.rs", "\0"),
    ];
    let repo = Repository::from_walk("/r".to_string(), walked);
    assert_eq!(repo.file_count(), 3);
    assert_eq!(repo.id_count(), 3);
    assert_eq!(repo.root(), "/r");
    let b = repo.get_file(FileId::new(0)).unwrap();
    assert_eq!((b.path.as_str(), b.language, b.is_vendor, b.is_generated), ("/r/b.rs", Language::Rust, false, false));
    let v = repo.get_file_by_path("/r/vendor/lib.js").unwrap();
    assert_eq!((v.id, v.is_vendor, v.line_count), (FileId::new(1), true, 2));
    let g = repo.get_file(FileId::new(2)).unwrap();
    assert!(g.is_generated && g.is_binary);
    assert!(repo.get_file(FileId::new(3)).is_none());
    assert_eq!(repo.relative_path(FileId::new(1)), Some("vendor/lib.js".to_string()));
    assert_eq!(repo.files().len(), 3);
}

#[test]
fn relative_path_joined_to_the_root_is_the_path() {
    let walked = vec![file("/r/src/a.rs", "fn a() {}"), file("/r/b.rs", "fn b() {}")];
    let repo = Repository::from_walk("/r".to_string(), walked);
    let files = repo.files();
    assert_eq!(files.len(), 2);
    assert_eq!(files[0].path, "/r/src/a.rs");
    assert_eq!(files[1].id, FileId::new(1));
    let rel = repo.relative_path(FileId::new(0)).unwrap();
    assert_eq!(rel, "src/a.rs");
    assert_eq!(join_path(repo.root(), &rel), "/r/src/a.rs");
    assert!(repo.relative_path(FileId::new(7)).is_none());
}

#[test]
fn paths_outside_the_root_are_not_scanned() {
    assert_eq!(Repository::walk_decision("/r", "/other/a.rs", true), None);
    let walked = vec![file("/other/a.rs", "fn a() {}"), file("/r/b.rs", "fn b() {}")];
    let repo = Repository::from_walk("/r".to_string(), walked);
    assert_eq!(repo.file_count(), 1);
    assert_eq!(repo.relative_path(FileId::new(0)), Some("b.rs".to_string()));
}
