use cli_integration_test::path::{is_plain_path, parent, precedes, resolve, strip_root};

#[test]
fn parent_of_nested_path_is_the_directory_that_holds_it() {
    assert_eq!(parent("dir/file2"), Some("dir".to_string()));
    assert_eq!(parent("a/b/c"), Some("a/b".to_string()));
}

#[test]
fn parent_of_single_component_is_the_root() {
    assert_eq!(parent("file1"), Some(String::new()));
}

#[test]
fn empty_path_has_no_parent() {
    assert_eq!(parent(""), None);
}

#[test]
fn parent_cuts_at_the_last_separator_only() {
    assert_eq!(parent("a//b"), Some("a/".to_string()));
    assert_eq!(parent("/x"), Some(String::new()));
    assert_eq!(parent("a/"), Some("a".to_string()));
}

#[test]
fn parent_counts_characters_not_bytes() {
    assert_eq!(parent("d\u{e9}j\u{e0}/vu"), Some("d\u{e9}j\u{e0}".to_string()));
}

#[test]
fn resolve_joins_with_one_separator() {
    assert_eq!(resolve("/tmp/t.1", "dir/file2"), "/tmp/t.1/dir/file2");
    assert_eq!(resolve("/tmp/t.1", "file1"), "/tmp/t.1/file1");
}

#[test]
fn resolve_of_empty_path_is_the_root() {
    assert_eq!(resolve("/tmp/t.1", ""), "/tmp/t.1");
}

#[test]
fn strip_root_gives_the_relative_path() {
    assert_eq!(strip_root("/tmp/t.1", "/tmp/t.1/dir/file2"), Some("dir/file2".to_string()));
    assert_eq!(strip_root("/tmp/t.1", "/tmp/t.1/x"), Some("x".to_string()));
}

#[test]
fn strip_root_leaves_out_the_root_itself() {
    assert_eq!(strip_root("/tmp/t.1", "/tmp/t.1"), None);
    assert_eq!(strip_root("/tmp/t.1", "/tmp/t.1/"), None);
}

#[test]
fn strip_root_leaves_out_what_lies_elsewhere() {
    assert_eq!(strip_root("/tmp/t.1", "/tmp/t.12/x"), None);
    assert_eq!(strip_root("/tmp/t.1", "/tmp/u.1/x"), None);
    assert_eq!(strip_root("/tmp/t.1", "/tmp"), None);
    assert_eq!(strip_root("/tmp/t.1", ""), None);
}

#[test]
fn strip_root_undoes_resolve() {
    let full = resolve("/w", "a/b");
    assert_eq!(strip_root("/w", &full), Some("a/b".to_string()));
}

#[test]
fn a_path_precedes_itself_and_its_extensions() {
    assert!(precedes("dir", "dir"));
    assert!(precedes("dir", "dir/file2"));
    assert!(!precedes("dir/file2", "dir"));
    assert!(precedes("", "a"));
    assert!(!precedes("a", ""));
}

#[test]
fn the_separator_comes_before_any_other_character() {
    assert!(precedes("a/b", "a-b"));
    assert!(!precedes("a-b", "a/b"));
    assert!(precedes("a/b", "a b"));
    assert!(precedes("a/z", "a.txt"));
}

#[test]
fn other_characters_go_by_code_point() {
    assert!(precedes("a", "b"));
    assert!(!precedes("b", "a"));
    assert!(precedes("Z", "a"));
    assert!(precedes("file1", "file2"));
    assert!(precedes("z", "\u{e9}"));
}

#[test]
fn of_two_paths_one_precedes_the_other() {
    let paths = ["", "a", "a/b", "a-b", "b", "dir/file2", "dir"];
    for x in paths {
        for y in paths {
            assert!(precedes(x, y) || precedes(y, x));
            if precedes(x, y) && precedes(y, x) {
                assert_eq!(x, y);
            }
        }
    }
}

#[test]
fn plain_paths_are_recognised() {
    assert!(is_plain_path("file1"));
    assert!(is_plain_path("dir/file2"));
    assert!(is_plain_path("a/b/c.txt"));
    assert!(is_plain_path("..."));
    assert!(is_plain_path(".hidden/..x"));
}

#[test]
fn paths_that_a_filesystem_would_respell_are_not_plain() {
    assert!(!is_plain_path(""));
    assert!(!is_plain_path("/abs"));
    assert!(!is_plain_path("a/"));
    assert!(!is_plain_path("a//b"));
    assert!(!is_plain_path("."));
    assert!(!is_plain_path(".."));
    assert!(!is_plain_path("a/./b"));
    assert!(!is_plain_path("a/../b"));
    assert!(!is_plain_path("a/.."));
    assert!(!is_plain_path("/"));
}

fn plain_samples() -> Vec<&'static str> {
    vec![
        "a", "a/b", "a/b/c", "a-b", "a.txt", "a b", "ab", "A", "b", "dir", "dir/file2",
        "empty_dir", "file1", "\u{e9}/x", "a/\u{e9}", "a!", "a/!", "z/a", "a0/b",
    ]
}

#[test]
fn order_agrees_with_the_order_of_std_paths() {
    let samples = plain_samples();
    for x in &samples {
        for y in &samples {
            assert_eq!(
                precedes(x, y),
                std::path::Path::new(x) <= std::path::Path::new(y),
                "{:?} against {:?}",
                x,
                y
            );
        }
    }
}

#[test]
fn parent_agrees_with_std_on_plain_paths() {
    for x in plain_samples() {
        let expected = std::path::Path::new(x).parent().map(|p| p.to_str().unwrap().to_string());
        assert_eq!(parent(x), expected, "{:?}", x);
    }
}

#[test]
fn resolve_and_strip_root_agree_with_std_on_plain_paths() {
    let root = "/tmp/t.abc";
    for x in plain_samples() {
        let joined = std::path::Path::new(root).join(x);
        assert_eq!(resolve(root, x), joined.to_str().unwrap());
        let stripped = joined.strip_prefix(root).ok().map(|p| p.to_str().unwrap().to_string());
        assert_eq!(strip_root(root, joined.to_str().unwrap()), stripped);
        assert!(is_plain_path(x));
    }
}
