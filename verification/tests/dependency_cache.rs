use git_dag_analyzer::dependency_cache::{load_deps, save_deps};
use git_dag_analyzer::dependency_map::CommitDependencyMap;

fn deps_of(entries: &[(&str, &str)]) -> CommitDependencyMap {
    let mut deps = CommitDependencyMap::new();
    for (hash, text) in entries {
        deps.insert(hash.to_string(), text.to_string());
    }
    deps
}

fn entries_of(deps: &CommitDependencyMap) -> Vec<(String, String)> {
    deps.entries().clone()
}

fn pair(hash: &str, text: &str) -> (String, String) {
    (hash.to_string(), text.to_string())
}

#[test]
fn saved_text_of_two_entries() {
    let deps = deps_of(&[("h1", "a x\nb y\n"), ("h2", "c")]);
    assert_eq!(save_deps(&deps), ";\nh1\na x\nb y\n;\nh2\nc\n;\n");
}

#[test]
fn saved_text_of_no_entry() {
    assert_eq!(save_deps(&CommitDependencyMap::new()), ";\n");
    assert!(entries_of(&load_deps(";\n")).is_empty());
    assert!(entries_of(&load_deps("")).is_empty());
}

#[test]
fn saving_and_loading_gives_the_map_back() {
    let deps = deps_of(&[("h1", "a x\nb y\n"), ("h2", "c\n"), ("h3", "d\n\ne\n")]);
    let loaded = load_deps(&save_deps(&deps));
    assert_eq!(entries_of(&loaded), entries_of(&deps));
    assert_eq!(save_deps(&loaded), save_deps(&deps));
    assert_eq!(loaded.get("h2").unwrap(), "c\n");
    assert!(loaded.get("h4").is_none());
}

#[test]
fn text_without_final_line_feed_gains_one() {
    let deps = deps_of(&[("h1", "a\nb")]);
    assert_eq!(entries_of(&load_deps(&save_deps(&deps))), vec![pair("h1", "a\nb\n")]);
}

#[test]
fn empty_text_comes_back_as_an_empty_line() {
    let deps = deps_of(&[("h1", "")]);
    assert_eq!(save_deps(&deps), ";\nh1\n\n;\n");
    assert_eq!(entries_of(&load_deps(&save_deps(&deps))), vec![pair("h1", "\n")]);
}

#[test]
fn one_space_at_the_end_of_a_line_is_lost() {
    let deps = deps_of(&[("h1", "root \nfile  \n")]);
    assert_eq!(entries_of(&load_deps(&save_deps(&deps))), vec![pair("h1", "root\nfile \n")]);
}

#[test]
fn block_without_lines_has_no_entry() {
    assert!(entries_of(&load_deps(";\nh1\n;\n")).is_empty());
    assert_eq!(entries_of(&load_deps(";\nh1\n;\nh2\nx\n;\n")), vec![pair("h2", "x\n")]);
}

#[test]
fn block_that_is_not_closed_is_left_out() {
    assert_eq!(entries_of(&load_deps(";\nh1\nx\n;\nh2\ny\n")), vec![pair("h1", "x\n")]);
}

#[test]
fn later_block_of_a_hash_replaces_the_earlier() {
    assert_eq!(
        entries_of(&load_deps(";\nh1\nx\n;\nh2\ny\n;\nh1\nz\n;\n")),
        vec![pair("h1", "z\n"), pair("h2", "y\n")]
    );
}

#[test]
fn lines_before_the_first_delimiter_belong_to_the_empty_hash() {
    assert_eq!(entries_of(&load_deps("x\n;\n")), vec![pair("", "x\n")]);
}

#[test]
fn carriage_returns_before_line_feeds_are_dropped() {
    assert_eq!(entries_of(&load_deps(";\r\nh1\r\nx\r\n;\r\n")), vec![pair("h1", "x\n")]);
}

#[test]
fn map_keeps_one_text_per_hash() {
    let mut deps = deps_of(&[("h1", "a\n"), ("h2", "b\n")]);
    deps.insert("h1".to_string(), "c\n".to_string());
    assert_eq!(deps.len(), 2);
    assert_eq!(entries_of(&deps), vec![pair("h1", "c\n"), pair("h2", "b\n")]);
    assert_eq!(deps.get("h2").unwrap(), "b\n");
}
