use codesift::watcher::{ChangeDetector, FileMetadata};
use codesift::FileChange;
use std::time::SystemTime;

#[test]
fn hash_depends_on_the_content() {
    let a = FileMetadata::compute_hash(b"fn main() {}");
    assert_eq!(a, FileMetadata::compute_hash(b"fn main() {}"));
    assert_ne!(a, FileMetadata::compute_hash(b"fn main() { }"));
    let now = SystemTime::now();
    let meta = FileMetadata::from_content("/r/a.rs".to_string(), b"fn main() {}", now);
    assert_eq!(meta.content_hash, a);
    assert_eq!(meta.path, "/r/a.rs");
    assert_eq!(meta.modified, now);
}

#[test]
fn recorded_content_is_unchanged_on_values() {
    let mut detector = ChangeDetector::new();
    assert!(detector.is_empty());
    assert!(detector.has_changed("/r/a.rs", b"one"));
    detector.update("/r/a.rs".to_string(), b"one");
    assert!(!detector.has_changed("/r/a.rs", b"one"));
    assert!(detector.has_changed("/r/a.rs", b"two"));
    assert!(detector.has_changed("/r/b.rs", b"one"));
    assert_eq!(detector.len(), 1);
}

#[test]
fn every_recorded_content_is_kept() {
    let mut detector = ChangeDetector::default();
    detector.update("/r/a.rs".to_string(), b"one");
    detector.update("/r/a.rs".to_string(), b"two");
    detector.update("/r/a.rs".to_string(), b"two");
    assert_eq!(detector.len(), 2);
    assert!(!detector.has_changed("/r/a.rs", b"one"));
    assert!(!detector.has_changed("/r/a.rs", b"two"));
}

#[test]
fn forgotten_path_is_changed_on_values() {
    let mut detector = ChangeDetector::new();
    detector.update("/r/a.rs".to_string(), b"one");
    detector.update("/r/a.rs".to_string(), b"two");
    detector.update("/r/b.rs".to_string(), b"one");
    detector.remove("/r/a.rs");
    assert!(detector.has_changed("/r/a.rs", b"one"));
    assert!(detector.has_changed("/r/a.rs", b"two"));
    assert!(!detector.has_changed("/r/b.rs", b"one"));
    assert_eq!(detector.len(), 1);
    assert!(!detector.is_empty());
}

#[test]
fn file_changes_carry_their_path() {
    let change = FileChange::Modified("/r/a.rs".to_string());
    match change.clone() {
        FileChange::Modified(p) => assert_eq!(p, "/r/a.rs"),
        _ => panic!("wrong variant"),
    }
}
