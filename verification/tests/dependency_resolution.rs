use git_dag_analyzer::dependency_resolution::{
    average_task_nanos, commit_hashes, dependency_source, dependency_text_of,
    merge_dependencies, worker_count, worker_pool_size, DependencySource, ProgressTracker,
};
use git_dag_analyzer::git_commands::{
    get_commit_deps, get_commit_deps_old, get_commit_tree_hash, get_object_type, get_tag_deps,
    list_objects,
};
use git_dag_analyzer::git_processing::process_objects;
use git_dag_analyzer::object_collection::ObjectContainer;

#[test]
fn cache_is_read_where_it_exists() {
    assert_eq!(dependency_source(true, true), DependencySource::Cache);
    assert_eq!(dependency_source(true, false), DependencySource::QueryAndSave);
    assert_eq!(dependency_source(false, false), DependencySource::Query);
    assert_eq!(dependency_source(false, true), DependencySource::Query);
}

#[test]
fn workers_are_half_the_cpus_and_at_least_one() {
    assert_eq!(worker_count(0), 1);
    assert_eq!(worker_count(1), 1);
    assert_eq!(worker_count(2), 1);
    assert_eq!(worker_count(3), 1);
    assert_eq!(worker_count(4), 2);
    assert_eq!(worker_count(9), 4);
    assert_eq!(worker_count(usize::MAX), usize::MAX / 2);
    assert!(worker_pool_size() >= 1);
}

#[test]
fn first_line_of_the_answer_is_dropped() {
    assert_eq!(dependency_text_of(&Ok("h1\nt1 \nb1 a.txt".to_string())), "t1 \nb1 a.txt");
    assert_eq!(dependency_text_of(&Ok("h1\n".to_string())), "");
    assert_eq!(dependency_text_of(&Ok("h1".to_string())), "");
    assert_eq!(dependency_text_of(&Ok("".to_string())), "");
    assert_eq!(dependency_text_of(&Ok("\nrest\n".to_string())), "rest\n");
}

#[test]
fn failed_query_gives_an_empty_text() {
    assert_eq!(dependency_text_of(&Err("fatal: bad revision".to_string())), "");
}

#[test]
fn every_commit_has_an_entry_after_merging() {
    let results = vec![
        ("h1".to_string(), Ok("h1\na\n".to_string())),
        ("h2".to_string(), Err("boom".to_string())),
        ("h3".to_string(), Ok("h3".to_string())),
    ];
    let deps = merge_dependencies(results);
    assert_eq!(
        deps.entries(),
        &vec![
            ("h1".to_string(), "a\n".to_string()),
            ("h2".to_string(), "".to_string()),
            ("h3".to_string(), "".to_string())
        ]
    );
}

#[test]
fn progress_is_reported_when_the_percentage_grows() {
    let mut tracker = ProgressTracker::new(3);
    assert_eq!(tracker.record(1), Some(33));
    assert_eq!(tracker.record(1), None);
    assert_eq!(tracker.record(2), Some(66));
    assert_eq!(tracker.record(3), Some(100));
    assert_eq!(tracker.record(2), None);
}

#[test]
fn progress_of_many_queries_is_reported_a_hundred_times() {
    let mut tracker = ProgressTracker::new(1000);
    let mut reported = Vec::new();
    for completed in 1..=1000 {
        if let Some(percent) = tracker.record(completed) {
            reported.push(percent);
        }
    }
    assert_eq!(reported, (1..=100).collect::<Vec<u64>>());
}

#[test]
fn progress_out_of_order_never_goes_down() {
    let mut tracker = ProgressTracker::new(10);
    assert_eq!(tracker.record(5), Some(50));
    assert_eq!(tracker.record(4), None);
    assert_eq!(tracker.record(0), None);
    assert_eq!(tracker.record(6), Some(60));
    let mut wide = ProgressTracker::new(u32::MAX);
    assert_eq!(wide.record(u32::MAX), Some(100));
    let mut narrow = ProgressTracker::new(1);
    assert_eq!(narrow.record(u32::MAX), Some(429496729500));
}

#[test]
fn average_time_per_query() {
    assert_eq!(average_task_nanos(1000, 3), 333);
    assert_eq!(average_task_nanos(1000, 0), 1000);
    assert_eq!(average_task_nanos(0, 5), 0);
}

#[test]
fn commit_hashes_come_by_index() {
    let mut container = ObjectContainer::new();
    process_objects("commit b 1 1\nblob x 1 1\ncommit a 1 1\ncommit c 1 1\n", &mut container)
        .unwrap();
    assert_eq!(commit_hashes(&container), vec!["b", "a", "c"]);
}

#[test]
fn queries_are_put_to_git() {
    let tree = get_commit_tree_hash("abc");
    assert_eq!(tree.program, "git");
    assert_eq!(tree.args, vec!["log", "--pretty=format:%T", "-n", "1", "abc"]);
    let deps = get_commit_deps("abc");
    assert_eq!(deps.program, "git");
    assert_eq!(deps.args, vec!["rev-list", "--objects", "abc~1..abc"]);
    assert_eq!(get_object_type("abc").args, vec!["cat-file", "-t", "abc"]);
    assert_eq!(
        get_commit_deps_old("abc").args,
        vec!["diff-tree", "--no-commit-id", "-r", "abc"]
    );
    assert_eq!(get_tag_deps().args, vec!["show-ref", "--tags", "-d"]);
    let (first, second) = list_objects();
    assert_eq!(first.program, "git");
    assert_eq!(first.args, vec!["rev-list", "--objects", "--all", "--no-object-names"]);
    assert_eq!(second.program, "git");
    assert_eq!(
        second.args,
        vec![
            "cat-file",
            "--batch-check='%(objecttype) %(objectname) %(objectsize) %(objectsize:disk)'"
        ]
    );
}
