use cli_integration_test::plan::Step;
use cli_integration_test::IntegrationTestEnvironment;
use fs_extra::dir::create_all;
use fs_extra::file::{read_to_string, write_all};
use predicates::prelude::Predicate;
use predicates::str::contains;
use std::path::Path;
use tempdir::TempDir;
use walkdir::WalkDir;

fn workspace(label: &str) -> (TempDir, IntegrationTestEnvironment) {
    let tmp = TempDir::new(label).expect("fail to create tmp directory");
    let root = tmp.path().to_str().expect("workspace path is not text").to_string();
    let env = IntegrationTestEnvironment::new(label, &root);
    (tmp, env)
}

fn carry_out(env: &IntegrationTestEnvironment) {
    for step in env.setup() {
        match step {
            Step::CreateDir(dir) => {
                create_all(env.resolve(&dir), false).expect("fail to create directory")
            }
            Step::WriteFile(file, content) => {
                write_all(env.resolve(&file), &content).expect("fail to create file")
            }
        }
    }
}

fn walk(env: &IntegrationTestEnvironment) -> Vec<String> {
    WalkDir::new(env.path())
        .into_iter()
        .filter_map(|found| found.ok())
        .filter_map(|found| found.path().to_str().map(|text| text.to_string()))
        .collect()
}

fn strings(items: &[&str]) -> Vec<String> {
    items.iter().map(|s| s.to_string()).collect()
}

#[test]
fn integration_test_environment() {
    let (_tmp, mut e) = workspace("test");
    e.add_file("file1", "test 1");
    e.add_file("dir/file2", "test 2");
    e.add_dir("emptry_dir");
    carry_out(&e);
    let display = e.render(&walk(&e));
    assert!(contains("file1").eval(display.as_str()));
    assert!(contains("dir/file2").eval(display.as_str()));
    assert!(contains("emptry_dir").eval(display.as_str()));
    assert!(contains("test 1").eval(read_to_string(e.resolve("file1")).unwrap().as_str()));
}

#[test]
fn end_to_end_scenario() {
    let (_tmp, mut e) = workspace("t");
    e.add_file("file1", "test 1");
    e.add_file("dir/file2", "test 2");
    e.add_dir("empty_dir");
    carry_out(&e);
    assert_eq!(e.tree(&walk(&e)), strings(&["dir", "dir/file2", "empty_dir", "file1"]));
    assert_eq!(read_to_string(e.resolve("file1")).unwrap(), "test 1");
    assert_eq!(read_to_string(e.resolve("dir/file2")).unwrap(), "test 2");
    assert_eq!(e.render(&walk(&e)), "dir\ndir/file2\nempty_dir\nfile1\n");
}

#[test]
fn tree_holds_the_paths_and_the_directories_above_them() {
    let (_tmp, mut e) = workspace("t");
    e.add_file("a/b/c/file", "x");
    e.add_dir("a/d/e");
    e.add_file("top", "y");
    carry_out(&e);
    assert_eq!(
        e.tree(&walk(&e)),
        strings(&["a", "a/b", "a/b/c", "a/b/c/file", "a/d", "a/d/e", "top"])
    );
}

#[test]
fn tree_does_not_depend_on_the_order_of_the_calls() {
    let (_tmp1, mut one) = workspace("t");
    one.add_file("dir/file2", "test 2");
    one.add_dir("dir");
    one.add_file("file1", "test 1");
    carry_out(&one);
    let (_tmp2, mut other) = workspace("t");
    other.add_file("file1", "test 1");
    other.add_dir("dir");
    other.add_file("dir/file2", "test 2");
    carry_out(&other);
    assert_eq!(one.tree(&walk(&one)), other.tree(&walk(&other)));
    assert_eq!(one.tree(&walk(&one)), strings(&["dir", "dir/file2", "file1"]));
}

#[test]
fn file_content_comes_back_as_it_was_given() {
    let (_tmp, mut e) = workspace("t");
    let text = "line 1\nline 2\n\ttab \u{e9}\u{4e16}\u{754c} end";
    e.add_file("deep/down/f.txt", text);
    e.add_file("empty", "");
    carry_out(&e);
    assert_eq!(read_to_string(e.resolve("deep/down/f.txt")).unwrap(), text);
    assert_eq!(read_to_string(e.resolve("empty")).unwrap(), "");
}

#[test]
fn directory_added_after_file_is_a_directory_on_disk() {
    let (_tmp, mut e) = workspace("t");
    e.add_file("p", "text");
    e.add_dir("p");
    carry_out(&e);
    assert!(Path::new(&e.resolve("p")).is_dir());
    assert!(!Path::new(&e.resolve("p")).is_file());
    assert_eq!(e.tree(&walk(&e)), strings(&["p"]));
}

#[test]
fn setup_twice_gives_the_same_tree() {
    let (_tmp, mut e) = workspace("t");
    e.add_file("file1", "test 1");
    e.add_file("dir/file2", "test 2");
    e.add_dir("empty_dir");
    carry_out(&e);
    let first = e.tree(&walk(&e));
    carry_out(&e);
    let second = e.tree(&walk(&e));
    assert_eq!(first, second);
    assert_eq!(second, strings(&["dir", "dir/file2", "empty_dir", "file1"]));
    assert_eq!(read_to_string(e.resolve("file1")).unwrap(), "test 1");
}

#[test]
fn tree_is_a_snapshot_of_what_is_there() {
    let (_tmp, mut e) = workspace("t");
    e.add_dir("d");
    carry_out(&e);
    assert_eq!(e.tree(&walk(&e)), strings(&["d"]));
    write_all(e.resolve("d/made_later"), "x").unwrap();
    assert_eq!(e.tree(&walk(&e)), strings(&["d", "d/made_later"]));
}

#[test]
fn tree_before_setup_is_empty() {
    let (_tmp, mut e) = workspace("t");
    e.add_file("file1", "test 1");
    assert_eq!(e.tree(&walk(&e)), Vec::<String>::new());
}

#[test]
fn tree_lists_a_directory_right_before_what_it_holds() {
    let (_tmp, mut e) = workspace("t");
    e.add_file("a/b", "1");
    e.add_file("a-b", "2");
    e.add_file("a.txt", "3");
    carry_out(&e);
    assert_eq!(e.tree(&walk(&e)), strings(&["a", "a/b", "a-b", "a.txt"]));
}

#[test]
fn two_workspaces_with_one_label_lie_apart() {
    let (_tmp1, one) = workspace("same");
    let (_tmp2, other) = workspace("same");
    assert_ne!(one.path(), other.path());
    assert!(Path::new(one.path()).is_dir());
    assert!(Path::new(other.path()).is_dir());
}

#[test]
fn workspace_is_gone_once_it_is_dropped() {
    let (tmp, mut e) = workspace("t");
    e.add_file("dir/file", "x");
    carry_out(&e);
    let root = e.path().to_string();
    assert!(Path::new(&root).is_dir());
    assert!(Path::new(&e.resolve("dir/file")).is_file());
    drop(tmp);
    assert!(!Path::new(&root).exists());
}
