use git_dag_analyzer::git_processing::process_objects;
use git_dag_analyzer::object_collection::ObjectContainer;
use git_dag_analyzer::report_checks::{can_report, checked_commit_size, has_valid_links};
use git_dag_analyzer::report_commits::calc_commit_size;

fn graph() -> ObjectContainer {
    let mut container = ObjectContainer::new();
    process_objects(
        "commit c0 1 1\ncommit c1 1 1\ntree t0 1 4294967295\nblob b0 1 4294967295\ntag g0 1 7\n",
        &mut container,
    )
    .unwrap();
    container
}

#[test]
fn fresh_graph_can_be_reported() {
    assert!(has_valid_links(&ObjectContainer::new()));
    assert!(can_report(&ObjectContainer::new()));
    assert!(has_valid_links(&graph()));
    assert!(can_report(&graph()));
}

#[test]
fn links_within_the_stores_are_valid() {
    let mut container = graph();
    container.mut_commits().get_mut_by_index(&0).add_blob_dep(&0);
    container.mut_commits().get_mut_by_index(&0).add_tree_dep(&0);
    container.mut_commits().get_mut_by_index(&1).add_tag_dep(&0);
    container.mut_trees().get_mut_by_index(&0).add_commit(&1);
    container.mut_blobs().get_mut_by_index(&0).add_commit(&0);
    container.mut_tags().get_mut_by_index(&0).add_commit_dep(&1);
    assert!(has_valid_links(&container));
    assert!(can_report(&container));
}

#[test]
fn link_that_leaves_a_store_is_found() {
    let mut container = graph();
    container.mut_commits().get_mut_by_index(&1).add_blob_dep(&1);
    assert!(!has_valid_links(&container));
    assert!(!can_report(&container));

    let mut container = graph();
    container.mut_commits().get_mut_by_index(&0).add_tree_dep(&1);
    assert!(!has_valid_links(&container));

    let mut container = graph();
    container.mut_commits().get_mut_by_index(&0).add_tag_dep(&3);
    assert!(!has_valid_links(&container));

    let mut container = graph();
    container.mut_trees().get_mut_by_index(&0).add_commit(&2);
    assert!(!has_valid_links(&container));

    let mut container = graph();
    container.mut_blobs().get_mut_by_index(&0).add_commit(&2);
    assert!(!has_valid_links(&container));

    let mut container = graph();
    container.mut_tags().get_mut_by_index(&0).add_commit_dep(&2);
    assert!(!has_valid_links(&container));
}

#[test]
fn checked_size_is_the_contributing_size() {
    let mut container = graph();
    for _ in 0..3 {
        container.mut_commits().get_mut_by_index(&0).add_blob_dep(&0);
        container.mut_commits().get_mut_by_index(&0).add_tree_dep(&0);
    }
    container.mut_commits().get_mut_by_index(&0).add_tag_dep(&0);
    let commit = container.commits().get_by_index(&0);
    assert_eq!(checked_commit_size(commit, &container), Some(6 * 4294967295 + 7));
    assert_eq!(calc_commit_size(commit, &container), 6 * 4294967295 + 7);
    let other = container.commits().get_by_index(&1);
    assert_eq!(checked_commit_size(other, &container), Some(0));
}
