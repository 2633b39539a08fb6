use codesift::paths::{child_of, extension_of, file_name_of, join_path, path_segments, strip_prefix_of};

fn chars(s: &str) -> Vec<char> {
    s.chars().collect()
}

#[test]
fn segments_skip_empty_and_current_components() {
    let segs = path_segments(&chars("/a//./b/"));
    assert_eq!(segs, vec![chars("a"), chars("b")]);
    assert!(path_segments(&chars("/")).is_empty());
}

#[test]
fn file_name_is_the_last_component() {
    assert_eq!(file_name_of("/a/b/c.rs"), Some(chars("c.rs")));
    assert_eq!(file_name_of("src/"), Some(chars("src")));
    assert_eq!(file_name_of("/a/.."), None);
    assert_eq!(file_name_of("/"), None);
}

#[test]
fn extension_follows_the_last_dot() {
    assert_eq!(extension_of("/a/b.tar.gz"), Some("gz".to_string()));
    assert_eq!(extension_of("main.RS"), Some("RS".to_string()));
    assert_eq!(extension_of("/a/.bashrc"), None);
    assert_eq!(extension_of("/a/Makefile"), None);
    assert_eq!(extension_of("/a/b."), Some(String::new()));
}

#[test]
fn child_of_compares_components() {
    assert!(child_of("/r/a.rs", "/r"));
    assert!(child_of("/r/./a.rs", "/r/"));
    assert!(!child_of("/r/x/a.rs", "/r"));
    assert!(!child_of("r/a.rs", "/r"));
}

#[test]
fn strip_prefix_removes_the_base() {
    assert_eq!(strip_prefix_of("/r/src/a.rs", "/r"), Some("src/a.rs".to_string()));
    assert_eq!(strip_prefix_of("/r", "/r/"), Some(String::new()));
    assert_eq!(strip_prefix_of("/x/a.rs", "/r"), None);
    assert_eq!(strip_prefix_of("/rr/a.rs", "/r"), None);
}

#[test]
fn join_adds_one_separator() {
    assert_eq!(join_path("/r", "a.rs"), "/r/a.rs");
    assert_eq!(join_path("/r/", "a.rs"), "/r/a.rs");
    assert_eq!(join_path("", "a.rs"), "a.rs");
}
