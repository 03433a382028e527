use git_dag_analyzer::dependency_map::CommitDependencyMap;
use git_dag_analyzer::git_processing::process_objects;
use git_dag_analyzer::linking::process_commit_deps;
use git_dag_analyzer::object_collection::ObjectContainer;
use git_dag_analyzer::report_all::report_all;
use git_dag_analyzer::report_blobs::report_blobs;
use git_dag_analyzer::report_commits::{calc_commit_size, report_commits};
use git_dag_analyzer::report_trees::{report_trees, PathVersions};
use git_dag_analyzer::tag_resolution::process_tags;

fn hash(kind: char, number: usize) -> String {
    format!("{}{:039}", kind, number)
}

fn blobs_of(sizes: &[u32]) -> ObjectContainer {
    let mut container = ObjectContainer::new();
    let mut listing = String::new();
    for (i, size) in sizes.iter().enumerate() {
        listing.push_str(&format!("blob {} {} {}\n", hash('b', i), size + 1, size));
    }
    process_objects(&listing, &mut container).unwrap();
    container
}

fn linked_graph() -> ObjectContainer {
    let mut container = ObjectContainer::new();
    let mut listing = String::new();
    listing.push_str(&format!("commit {} 100 70\n", hash('c', 0)));
    listing.push_str(&format!("commit {} 100 90\n", hash('c', 1)));
    listing.push_str(&format!("commit {} 100 90\n", hash('c', 2)));
    listing.push_str(&format!("tree {} 10 5\n", hash('t', 0)));
    listing.push_str(&format!("tree {} 10 9\n", hash('t', 1)));
    listing.push_str(&format!("tree {} 10 7\n", hash('t', 2)));
    listing.push_str(&format!("tree {} 10 9\n", hash('t', 3)));
    listing.push_str(&format!("blob {} 10 1000\n", hash('b', 0)));
    listing.push_str(&format!("blob {} 10 30\n", hash('b', 1)));
    listing.push_str(&format!("tag {} 10 3\n", hash('g', 0)));
    process_objects(&listing, &mut container).unwrap();

    let mut deps = CommitDependencyMap::new();
    deps.insert(
        hash('c', 0),
        format!("{} \n{} src\n{} src/a\n", hash('t', 0), hash('t', 1), hash('b', 0)),
    );
    deps.insert(
        hash('c', 1),
        format!("{} \n{} src\n{} src/a\n{} src/a\n", hash('t', 2), hash('t', 3), hash('b', 1), hash('b', 1)),
    );
    process_commit_deps(&deps, &mut container);
    process_tags(
        &format!("{} refs/tags/v1\n{} refs/tags/v1^{{}}\n", hash('g', 0), hash('c', 1)),
        &mut container,
    );
    container
}

#[test]
fn contributing_size_adds_up_trees_blobs_and_tags() {
    let container = linked_graph();
    let first = container.commits().get_by_index(&0);
    assert_eq!(calc_commit_size(first, &container), 5 + 9 + 1000);
    let second = container.commits().get_by_index(&1);
    assert_eq!(calc_commit_size(second, &container), 7 + 9 + 30 + 30 + 3);
    let third = container.commits().get_by_index(&2);
    assert_eq!(calc_commit_size(third, &container), 0);
}

#[test]
fn commit_report_names_the_first_of_the_largest() {
    let report = report_commits(&linked_graph());
    assert_eq!(report.count, 3);
    assert_eq!(report.total_size, 250);
    assert_eq!(report.largest, Some((1, 90)));
    assert_eq!(report.largest_contributing, Some((0, 1014)));
}

#[test]
fn commit_report_of_no_commit() {
    let report = report_commits(&ObjectContainer::new());
    assert_eq!(report.count, 0);
    assert_eq!(report.total_size, 0);
    assert_eq!(report.largest, None);
    assert_eq!(report.largest_contributing, None);
}

#[test]
fn commit_report_of_commits_without_weight() {
    let mut container = ObjectContainer::new();
    process_objects("commit a 0 0\ncommit b 0 0\n", &mut container).unwrap();
    let report = report_commits(&container);
    assert_eq!(report.largest, Some((0, 0)));
    assert_eq!(report.largest_contributing, Some((0, 0)));
}

#[test]
fn tree_report_groups_by_path() {
    let report = report_trees(&linked_graph());
    assert_eq!(report.count, 4);
    assert_eq!(report.total_size, 30);
    assert_eq!(report.largest, Some((1, 9)));
    assert_eq!(
        report.most_versions,
        Some(PathVersions { first_tree: 0, path: "".to_string(), count: 2, total_size: 12 })
    );
}

#[test]
fn tree_report_prefers_the_path_with_more_trees() {
    let mut container = ObjectContainer::new();
    let mut listing = String::new();
    for i in 0..5 {
        listing.push_str(&format!("tree {} 1 {}\n", hash('t', i), 10 + i));
    }
    listing.push_str(&format!("commit {} 1 1\n", hash('c', 0)));
    process_objects(&listing, &mut container).unwrap();
    let mut deps = CommitDependencyMap::new();
    deps.insert(
        hash('c', 0),
        format!(
            "{} a\n{} b\n{} b\n{} a\n{} b\n",
            hash('t', 0),
            hash('t', 1),
            hash('t', 2),
            hash('t', 3),
            hash('t', 4)
        ),
    );
    process_commit_deps(&deps, &mut container);
    let report = report_trees(&container);
    assert_eq!(
        report.most_versions,
        Some(PathVersions { first_tree: 1, path: "b".to_string(), count: 3, total_size: 37 })
    );
    assert_eq!(report.largest, Some((4, 14)));
}

#[test]
fn tree_report_of_no_tree() {
    let report = report_trees(&ObjectContainer::new());
    assert_eq!(report.count, 0);
    assert_eq!(report.largest, None);
    assert_eq!(report.most_versions, None);
}

#[test]
fn blob_report_of_few_blobs() {
    let report = report_blobs(&blobs_of(&[5, 9, 7]));
    assert_eq!(report.count, 3);
    assert_eq!(report.total_size, 21);
    assert_eq!(report.largest, vec![(9, 1), (7, 2), (5, 0)]);
}

#[test]
fn blob_report_keeps_the_ten_largest() {
    let sizes = [3, 50, 8, 8, 20, 1, 40, 8, 9, 2, 30, 8, 7, 60, 4];
    let report = report_blobs(&blobs_of(&sizes));
    assert_eq!(report.count, 15);
    assert_eq!(report.total_size, sizes.iter().map(|s| *s as u64).sum::<u64>());
    assert_eq!(
        report.largest,
        vec![
            (60, 13),
            (50, 1),
            (40, 6),
            (30, 10),
            (20, 4),
            (9, 8),
            (8, 2),
            (8, 3),
            (8, 7),
            (8, 11)
        ]
    );
}

#[test]
fn blob_between_the_smallest_two_enters_the_list() {
    let report = report_blobs(&blobs_of(&[1, 5, 6, 7, 8, 9, 10, 11, 12, 13, 3]));
    let sizes: Vec<u32> = report.largest.iter().map(|e| e.0).collect();
    assert_eq!(sizes, vec![13, 12, 11, 10, 9, 8, 7, 6, 5, 3]);
}

#[test]
fn blob_of_the_smallest_size_kept_does_not_enter() {
    let report = report_blobs(&blobs_of(&[4, 5, 6, 7, 8, 9, 10, 11, 12, 13, 4]));
    assert_eq!(report.largest[9], (4, 0));
}

#[test]
fn ten_largest_sizes_do_not_depend_on_the_order() {
    let sizes = [3, 50, 8, 8, 20, 1, 40, 8, 9, 2, 30, 8, 7, 60, 4, 50, 50];
    let expected: Vec<u32> = vec![60, 50, 50, 50, 40, 30, 20, 9, 8, 8];
    let mut order: Vec<u32> = sizes.to_vec();
    for round in 0..sizes.len() {
        order.rotate_left(1);
        if round % 2 == 0 {
            order.reverse();
        }
        let report = report_blobs(&blobs_of(&order));
        let got: Vec<u32> = report.largest.iter().map(|e| e.0).collect();
        assert_eq!(got, expected);
    }
}

#[test]
fn blob_report_of_no_blob() {
    let report = report_blobs(&ObjectContainer::new());
    assert_eq!(report.count, 0);
    assert_eq!(report.total_size, 0);
    assert!(report.largest.is_empty());
}

#[test]
fn all_three_reports_at_once() {
    let container = linked_graph();
    let report = report_all(&container);
    assert_eq!(report.commits, report_commits(&container));
    assert_eq!(report.trees, report_trees(&container));
    assert_eq!(report.blobs, report_blobs(&container));
    assert_eq!(report.blobs.largest, vec![(1000, 0), (30, 1)]);
}
