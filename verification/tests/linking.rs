use git_dag_analyzer::dependency_map::CommitDependencyMap;
use git_dag_analyzer::git_processing::process_objects;
use git_dag_analyzer::linking::{process_commit_deps, resolve_dependencies, TargetKind};
use git_dag_analyzer::object_collection::ObjectContainer;

fn hash(c: char) -> String {
    std::iter::repeat(c).take(40).collect()
}

fn graph() -> ObjectContainer {
    let mut container = ObjectContainer::new();
    let listing = format!(
        "commit {} 120 80\nblob {} 50 40\ntree {} 30 20\ncommit {} 10 10\nblob {} 5 4\n",
        hash('1'),
        hash('2'),
        hash('3'),
        hash('4'),
        hash('5'),
    );
    process_objects(&listing, &mut container).unwrap();
    container
}

fn deps_of(entries: &[(String, String)]) -> CommitDependencyMap {
    let mut deps = CommitDependencyMap::new();
    for (hash, text) in entries {
        deps.insert(hash.clone(), text.clone());
    }
    deps
}

#[test]
fn root_tree_and_blob_are_linked() {
    let mut container = graph();
    let text = format!("{} \n{} src/main.rs\n", hash('3'), hash('2'));
    process_commit_deps(&deps_of(&[(hash('1'), text)]), &mut container);

    let commit = container.commits().get(&hash('1')).unwrap();
    assert_eq!(commit.tree_deps(), &vec![0]);
    assert_eq!(commit.blob_deps(), &vec![0]);
    let tree = container.trees().get_by_index(&0);
    assert_eq!(tree.path(), "");
    assert_eq!(tree.commits(), &vec![0]);
    let blob = container.blobs().get_by_index(&0);
    assert_eq!(blob.path(), "src/main.rs");
    assert_eq!(blob.commits(), &vec![0]);
    assert!(container.commits().get_by_index(&1).blob_deps().is_empty());
}

#[test]
fn text_that_begins_with_the_commit_itself() {
    let mut container = graph();
    let text = format!("{}\n{} \n{} src/main.rs\n", hash('1'), hash('3'), hash('2'));
    process_commit_deps(&deps_of(&[(hash('1'), text)]), &mut container);
    let commit = container.commits().get(&hash('1')).unwrap();
    assert_eq!(commit.tree_deps(), &vec![0]);
    assert_eq!(commit.blob_deps(), &vec![0]);
}

#[test]
fn short_lines_and_unknown_ids_add_nothing() {
    let mut container = graph();
    let text = format!("\nabc\n{} a.txt\n{}\n", hash('9'), &hash('2')[..39]);
    process_commit_deps(&deps_of(&[(hash('1'), text)]), &mut container);
    let commit = container.commits().get(&hash('1')).unwrap();
    assert!(commit.tree_deps().is_empty());
    assert!(commit.blob_deps().is_empty());
    assert!(container.blobs().get_by_index(&0).commits().is_empty());
}

#[test]
fn unknown_commit_is_passed_over() {
    let mut container = graph();
    let text = format!("{} a.txt\n", hash('2'));
    process_commit_deps(&deps_of(&[(hash('8'), text)]), &mut container);
    assert!(container.blobs().get_by_index(&0).commits().is_empty());
    assert_eq!(container.blobs().get_by_index(&0).path(), "");
}

#[test]
fn path_is_what_follows_the_forty_first_character() {
    let mut container = graph();
    let text = format!("{}xdir/a b.txt\n{} \n{}y\n", hash('2'), hash('5'), hash('3'));
    process_commit_deps(&deps_of(&[(hash('4'), text)]), &mut container);
    assert_eq!(container.blobs().get_by_index(&0).path(), "dir/a b.txt");
    assert_eq!(container.blobs().get_by_index(&1).path(), "");
    assert_eq!(container.trees().get_by_index(&0).path(), "");
    let commit = container.commits().get(&hash('4')).unwrap();
    assert_eq!(commit.blob_deps(), &vec![0, 1]);
    assert_eq!(commit.tree_deps(), &vec![0]);
}

#[test]
fn two_commits_share_a_blob() {
    let mut container = graph();
    let first = format!("{} lib.rs\n", hash('2'));
    let second = format!("{} lib.rs\n{} lib.rs\n", hash('2'), hash('2'));
    process_commit_deps(&deps_of(&[(hash('1'), first), (hash('4'), second)]), &mut container);
    let blob = container.blobs().get_by_index(&0);
    assert_eq!(blob.commits(), &vec![0, 1, 1]);
    assert_eq!(blob.path(), "lib.rs");
    assert_eq!(container.commits().get_by_index(&1).blob_deps(), &vec![0, 0]);
}

#[test]
fn order_of_the_entries_changes_no_edge_set() {
    let first = format!("{} lib.rs\n{} \n", hash('2'), hash('3'));
    let second = format!("{} \n{} lib.rs\n{} b\n", hash('3'), hash('2'), hash('5'));

    let mut one = graph();
    process_commit_deps(
        &deps_of(&[(hash('1'), first.clone()), (hash('4'), second.clone())]),
        &mut one,
    );
    let mut other = graph();
    process_commit_deps(&deps_of(&[(hash('4'), second), (hash('1'), first)]), &mut other);

    for index in 0..2 {
        let a = one.commits().get_by_index(&index);
        let b = other.commits().get_by_index(&index);
        assert_eq!(a.tree_deps(), b.tree_deps());
        assert_eq!(a.blob_deps(), b.blob_deps());
    }
    for index in 0..2 {
        let a = one.blobs().get_by_index(&index);
        let b = other.blobs().get_by_index(&index);
        assert_eq!(a.path(), b.path());
        let mut left = a.commits().clone();
        let mut right = b.commits().clone();
        left.sort();
        right.sort();
        assert_eq!(left, right);
    }
    let mut left = one.trees().get_by_index(&0).commits().clone();
    let mut right = other.trees().get_by_index(&0).commits().clone();
    left.sort();
    right.sort();
    assert_eq!(left, vec![0, 1]);
    assert_eq!(right, vec![0, 1]);
}

#[test]
fn many_entries_are_linked_as_one_after_the_other() {
    let mut container = ObjectContainer::new();
    let mut listing = String::new();
    let mut entries = Vec::new();
    for i in 0..200 {
        let commit = format!("{:040}", i);
        let blob = format!("{:039}b", i);
        listing.push_str(&format!("commit {} 1 1\nblob {} 2 2\n", commit, blob));
        entries.push((commit, format!("{} file{}\n", blob, i)));
    }
    process_objects(&listing, &mut container).unwrap();
    process_commit_deps(&deps_of(&entries), &mut container);
    for i in 0..200 {
        assert_eq!(container.commits().get_by_index(&i).blob_deps(), &vec![i]);
        assert_eq!(container.blobs().get_by_index(&i).commits(), &vec![i]);
        assert_eq!(container.blobs().get_by_index(&i).path(), format!("file{}", i));
    }
}

#[test]
fn resolving_changes_nothing_and_names_the_edges() {
    let container = graph();
    let text = format!("{} \n{} src/main.rs\nshort\n", hash('3'), hash('2'));
    let resolved = resolve_dependencies(&container, &hash('1'), &text);
    assert_eq!(resolved.commit, Some(0));
    assert_eq!(resolved.edges.len(), 2);
    assert_eq!(resolved.edges[0].kind, TargetKind::Tree);
    assert_eq!(resolved.edges[0].index, 0);
    assert_eq!(resolved.edges[0].path, "");
    assert_eq!(resolved.edges[1].kind, TargetKind::Blob);
    assert_eq!(resolved.edges[1].path, "src/main.rs");
    let unknown = resolve_dependencies(&container, &hash('7'), &text);
    assert_eq!(unknown.commit, None);
    assert!(unknown.edges.is_empty());
}
