use cli_integration_test::plan::{plan, Step};
use cli_integration_test::store::{Entry, Fixture};
use cli_integration_test::IntegrationTestEnvironment;

fn dir(path: &str) -> Step {
    Step::CreateDir(path.to_string())
}

fn file(path: &str, content: &str) -> Step {
    Step::WriteFile(path.to_string(), content.to_string())
}

fn same_step(a: &Step, b: &Step) -> bool {
    match (a, b) {
        (Step::CreateDir(x), Step::CreateDir(y)) => x == y,
        (Step::WriteFile(x, c), Step::WriteFile(y, d)) => x == y && c == d,
        _ => false,
    }
}

fn same_steps(a: &[Step], b: &[Step]) -> bool {
    a.len() == b.len() && a.iter().zip(b.iter()).all(|(x, y)| same_step(x, y))
}

fn is_file_with(entry: Option<&Entry>, content: &str) -> bool {
    matches!(entry, Some(Entry::File(c)) if c == content)
}

fn is_dir(entry: Option<&Entry>) -> bool {
    matches!(entry, Some(Entry::Dir))
}

#[test]
fn new_store_is_empty() {
    let store = Fixture::new();
    assert_eq!(store.len(), 0);
    assert!(store.get("file1").is_none());
    assert_eq!(store.find("file1"), None);
    assert!(plan(&store).is_empty());
}

#[test]
fn add_file_records_path_and_content() {
    let mut store = Fixture::new();
    store.add_file("file1", "test 1");
    assert_eq!(store.len(), 1);
    assert_eq!(store.path_at(0), "file1");
    assert!(is_file_with(Some(store.entry_at(0)), "test 1"));
    assert!(is_file_with(store.get("file1"), "test 1"));
    assert!(store.get("file2").is_none());
}

#[test]
fn add_dir_records_a_directory() {
    let mut store = Fixture::new();
    store.add_dir("empty_dir");
    assert_eq!(store.len(), 1);
    assert!(is_dir(store.get("empty_dir")));
}

#[test]
fn entries_keep_the_order_of_first_mention() {
    let mut store = Fixture::new();
    store.add_file("b", "1");
    store.add_dir("a");
    store.add_file("c", "3");
    store.add_file("b", "2");
    assert_eq!(store.len(), 3);
    assert_eq!(store.path_at(0), "b");
    assert_eq!(store.path_at(1), "a");
    assert_eq!(store.path_at(2), "c");
    assert_eq!(store.find("a"), Some(1));
    assert_eq!(store.find("c"), Some(2));
    assert!(is_file_with(store.get("b"), "2"));
}

#[test]
fn second_file_at_a_path_replaces_the_first() {
    let mut store = Fixture::new();
    store.add_file("p", "old");
    store.add_file("p", "new");
    assert_eq!(store.len(), 1);
    assert!(is_file_with(store.get("p"), "new"));
}

#[test]
fn directory_after_file_at_the_same_path_wins() {
    let mut store = Fixture::new();
    store.add_file("p", "text");
    store.add_dir("p");
    assert_eq!(store.len(), 1);
    assert!(is_dir(store.get("p")));
    assert!(same_steps(&plan(&store), &[dir("p")]));
}

#[test]
fn file_after_directory_at_the_same_path_wins() {
    let mut store = Fixture::new();
    store.add_dir("p");
    store.add_file("p", "text");
    assert_eq!(store.len(), 1);
    assert!(is_file_with(store.get("p"), "text"));
    assert!(same_steps(&plan(&store), &[dir(""), file("p", "text")]));
}

#[test]
fn paths_are_told_apart_by_their_spelling() {
    let mut store = Fixture::new();
    store.add_file("a/b", "1");
    store.add_file("a//b", "2");
    assert_eq!(store.len(), 2);
    assert!(is_file_with(store.get("a/b"), "1"));
    assert!(is_file_with(store.get("a//b"), "2"));
}

#[test]
fn set_takes_either_kind_of_entry() {
    let mut store = Fixture::new();
    store.set("x", Entry::File("1".to_string()));
    store.set("y", Entry::Dir);
    store.set("x", Entry::Dir);
    assert_eq!(store.len(), 2);
    assert!(is_dir(store.get("x")));
    assert!(is_dir(store.get("y")));
}

#[test]
fn plan_makes_the_parent_before_it_writes_a_file() {
    let mut store = Fixture::new();
    store.add_file("dir/sub/file", "x");
    assert!(same_steps(&plan(&store), &[dir("dir/sub"), file("dir/sub/file", "x")]));
}

#[test]
fn plan_for_a_file_at_the_top_names_the_root() {
    let mut store = Fixture::new();
    store.add_file("file1", "test 1");
    assert!(same_steps(&plan(&store), &[dir(""), file("file1", "test 1")]));
}

#[test]
fn plan_for_a_file_at_the_empty_path_makes_nothing_first() {
    let mut store = Fixture::new();
    store.add_file("", "x");
    assert!(same_steps(&plan(&store), &[file("", "x")]));
}

#[test]
fn plan_follows_the_order_of_the_store() {
    let mut store = Fixture::new();
    store.add_file("file1", "test 1");
    store.add_file("dir/file2", "test 2");
    store.add_dir("empty_dir");
    let expected = [
        dir(""),
        file("file1", "test 1"),
        dir("dir"),
        file("dir/file2", "test 2"),
        dir("empty_dir"),
    ];
    assert!(same_steps(&plan(&store), &expected));
}

#[test]
fn environment_keeps_label_and_root() {
    let env = IntegrationTestEnvironment::new("t", "/tmp/t.abc");
    assert_eq!(env.label(), "t");
    assert_eq!(env.path(), "/tmp/t.abc");
    assert!(env.setup().is_empty());
}

#[test]
fn environment_resolves_below_its_root() {
    let env = IntegrationTestEnvironment::new("t", "/tmp/t.abc");
    assert_eq!(env.resolve("dir/file2"), "/tmp/t.abc/dir/file2");
    assert_eq!(env.resolve(""), "/tmp/t.abc");
}

#[test]
fn environment_setup_is_the_plan_of_what_was_added() {
    let mut env = IntegrationTestEnvironment::new("t", "/tmp/t.abc");
    env.add_file("file1", "test 1");
    env.add_file("dir/file2", "test 2");
    env.add_dir("empty_dir");
    env.add_dir("file1");
    let expected = [dir("file1"), dir("dir"), file("dir/file2", "test 2"), dir("empty_dir")];
    assert!(same_steps(&env.setup(), &expected));
    assert_eq!(env.path(), "/tmp/t.abc");
    assert_eq!(env.label(), "t");
}

#[test]
fn setup_does_not_change_the_store() {
    let mut env = IntegrationTestEnvironment::new("t", "/r");
    env.add_file("a/b", "1");
    let first = env.setup();
    let second = env.setup();
    assert!(same_steps(&first, &second));
}

#[test]
fn exec_mode_is_rwx_for_owner_and_rx_for_others() {
    assert_eq!(cli_integration_test::env::EXEC_MODE, 0o755);
    assert_eq!(cli_integration_test::env::EXEC_MODE, 493);
}
