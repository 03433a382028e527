use git_dag_analyzer::git_processing::{process_objects, ParseError, SizeField};
use git_dag_analyzer::object_collection::{ObjectContainer, Properties};

#[test]
fn listing_with_one_object_of_three_kinds() {
    let mut container = ObjectContainer::new();
    let unknown =
        process_objects("commit h1 120 80\nblob h2 50 40\ntree h3 30 20\n", &mut container)
            .unwrap();
    assert!(unknown.is_empty());

    assert_eq!(container.commits().count(), 1);
    assert_eq!(container.blobs().count(), 1);
    assert_eq!(container.trees().count(), 1);
    assert_eq!(container.tags().count(), 0);

    let commit = container.commits().get("h1").unwrap();
    assert_eq!(commit.hash_index(), &0);
    assert_eq!(commit.size_disk(), 80);
    let blob = container.blobs().get("h2").unwrap();
    assert_eq!(blob.hash_index(), &0);
    assert_eq!(blob.size_disk(), 40);
    let tree = container.trees().get("h3").unwrap();
    assert_eq!(tree.hash_index(), &0);
    assert_eq!(tree.size_disk(), 20);
    assert_eq!(tree.path(), "");
    assert!(commit.tree_deps().is_empty());
    assert!(commit.blob_deps().is_empty());
}

#[test]
fn apostrophes_are_taken_out() {
    let mut container = ObjectContainer::new();
    process_objects("'tag t1 7 5'\n'commit c1 9 8'", &mut container).unwrap();
    assert_eq!(container.tags().get_index("t1"), Some(&0));
    assert_eq!(container.tags().get_by_index(&0).size_disk(), 5);
    assert_eq!(container.commits().get_index("c1"), Some(&0));
}

#[test]
fn lines_without_four_fields_are_passed_over() {
    let mut container = ObjectContainer::new();
    let unknown = process_objects(
        "\ncommit c1 9\ncommit c2 1 2 3\nblob  b1 1 2\nblob b2 1 2\r\n\n",
        &mut container,
    )
    .unwrap();
    assert!(unknown.is_empty());
    assert_eq!(container.commits().count(), 0);
    assert_eq!(container.blobs().count(), 1);
    assert_eq!(container.blobs().get_index("b2"), Some(&0));
}

#[test]
fn unknown_kinds_are_handed_back() {
    let mut container = ObjectContainer::new();
    let unknown =
        process_objects("branch x 1 2\ncommit c1 1 2\nnote y 3 4\n", &mut container).unwrap();
    assert_eq!(unknown, vec!["branch".to_string(), "note".to_string()]);
    assert_eq!(container.commits().count(), 1);
}

#[test]
fn indices_count_up_within_each_kind() {
    let mut container = ObjectContainer::new();
    process_objects(
        "commit c1 1 1\ntree t1 1 1\ncommit c2 1 1\ntree t2 1 1\ncommit c3 1 1\n",
        &mut container,
    )
    .unwrap();
    assert_eq!(container.commits().get_index("c3"), Some(&2));
    assert_eq!(container.trees().get_index("t2"), Some(&1));
    assert_eq!(container.commits().get_by_index(&2).hash_index(), &2);
    assert_eq!(container.commits().lookup_hash_for_index(&1).unwrap(), "c2");
}

#[test]
fn malformed_size_stops_the_reading() {
    let mut container = ObjectContainer::new();
    let result = process_objects("commit c1 1 1\ncommit c2 x 1\ncommit c3 1 1\n", &mut container);
    assert_eq!(result, Err(ParseError { line: 1, field: SizeField::Size }));
    assert_eq!(container.commits().count(), 1);
}

#[test]
fn malformed_size_on_disk_is_told_apart() {
    let mut container = ObjectContainer::new();
    let result = process_objects("commit c1 1 -1\n", &mut container);
    assert_eq!(result, Err(ParseError { line: 0, field: SizeField::SizeOnDisk }));
    assert_eq!(container.commits().count(), 0);
}

#[test]
fn sizes_are_checked_before_the_kind() {
    let mut container = ObjectContainer::new();
    let result = process_objects("branch x 1 4294967296\n", &mut container);
    assert_eq!(result, Err(ParseError { line: 0, field: SizeField::SizeOnDisk }));
}

#[test]
fn sizes_take_the_whole_range_of_u32() {
    let mut container = ObjectContainer::new();
    process_objects("blob b1 4294967295 +0012\n", &mut container).unwrap();
    assert_eq!(container.blobs().get_by_index(&0).size_disk(), 12);
    let result = process_objects("blob b2 4294967296 1\n", &mut container);
    assert_eq!(result, Err(ParseError { line: 0, field: SizeField::Size }));
    let result = process_objects("blob b2 + 1\n", &mut container);
    assert_eq!(result, Err(ParseError { line: 0, field: SizeField::Size }));
    let result = process_objects("blob b2 1_0 1\n", &mut container);
    assert_eq!(result, Err(ParseError { line: 0, field: SizeField::Size }));
}
