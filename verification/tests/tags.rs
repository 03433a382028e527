use git_dag_analyzer::git_processing::process_objects;
use git_dag_analyzer::object_collection::ObjectContainer;
use git_dag_analyzer::tag_resolution::{is_tag_listing, process_tags, TagDiagnostic};

fn graph() -> ObjectContainer {
    let mut container = ObjectContainer::new();
    process_objects(
        "commit c0 1 1\ncommit c1 1 1\ntag t0 1 1\ntag t1 1 1\nblob b0 1 1\n",
        &mut container,
    )
    .unwrap();
    container
}

#[test]
fn annotated_tag_is_linked_to_its_commit() {
    let mut container = graph();
    let notes = process_tags("t1 refs/tags/v1.0\nc1 refs/tags/v1.0^{}\n", &mut container);
    assert!(notes.is_empty());
    let tag = container.tags().get("t1").unwrap();
    assert_eq!(tag.name(), "refs/tags/v1.0");
    assert_eq!(tag.commit_index(), Some(1));
    let commit = container.commits().get("c1").unwrap();
    assert_eq!(commit.tag_deps(), &vec![1]);
    assert!(commit.lightweight_tags().is_empty());
    assert_eq!(container.tags().get("t0").unwrap().name(), "");
}

#[test]
fn lightweight_tag_is_noted_on_the_commit() {
    let mut container = graph();
    let notes = process_tags("c0 refs/tags/lite", &mut container);
    assert!(notes.is_empty());
    let commit = container.commits().get("c0").unwrap();
    assert_eq!(commit.lightweight_tags(), &vec!["refs/tags/lite".to_string()]);
    assert!(commit.tag_deps().is_empty());
    for index in 0..2 {
        let tag = container.tags().get_by_index(&index);
        assert_eq!(tag.name(), "");
        assert_eq!(tag.commit_index(), None);
    }
}

#[test]
fn tag_followed_by_a_plain_commit_stays_without_commit() {
    let mut container = graph();
    let notes = process_tags("t0 refs/tags/a\nc0 refs/tags/b\nc1 refs/tags/c\n", &mut container);
    assert_eq!(notes, vec![TagDiagnostic::TagWithoutCommit("t0".to_string())]);
    let tag = container.tags().get("t0").unwrap();
    assert_eq!(tag.name(), "refs/tags/a");
    assert_eq!(tag.commit_index(), None);
    assert!(container.commits().get("c0").unwrap().lightweight_tags().is_empty());
    assert!(container.commits().get("c0").unwrap().tag_deps().is_empty());
    assert_eq!(
        container.commits().get("c1").unwrap().lightweight_tags(),
        &vec!["refs/tags/c".to_string()]
    );
}

#[test]
fn unknown_reference_is_noted_and_the_tag_goes_on_waiting() {
    let mut container = graph();
    let notes =
        process_tags("t0 refs/tags/a\nzz refs/tags/q\nc0 refs/tags/a^{}\n", &mut container);
    assert_eq!(notes, vec![TagDiagnostic::UnresolvedTag("zz".to_string())]);
    assert_eq!(container.tags().get("t0").unwrap().commit_index(), Some(0));
    assert_eq!(container.commits().get("c0").unwrap().tag_deps(), &vec![0]);
}

#[test]
fn a_reference_to_a_blob_is_unresolved() {
    let mut container = graph();
    let notes = process_tags("b0 refs/tags/blob\n", &mut container);
    assert_eq!(notes, vec![TagDiagnostic::UnresolvedTag("b0".to_string())]);
}

#[test]
fn two_tags_in_a_row() {
    let mut container = graph();
    let notes = process_tags(
        "t0 refs/tags/a\nt1 refs/tags/b\nc1 refs/tags/b^{}\nc0 refs/tags/x^{}\n",
        &mut container,
    );
    assert!(notes.is_empty());
    assert_eq!(container.tags().get("t0").unwrap().commit_index(), None);
    assert_eq!(container.tags().get("t1").unwrap().commit_index(), Some(1));
    assert_eq!(
        container.commits().get("c0").unwrap().lightweight_tags(),
        &vec!["refs/tags/x^{}".to_string()]
    );
}

#[test]
fn label_is_the_second_field() {
    let mut container = graph();
    process_tags("c0 refs/tags/with space^{}\n", &mut container);
    assert_eq!(
        container.commits().get("c0").unwrap().lightweight_tags(),
        &vec!["refs/tags/with".to_string()]
    );
}

#[test]
fn empty_listing_changes_nothing() {
    let mut container = graph();
    assert!(is_tag_listing(""));
    assert!(process_tags("", &mut container).is_empty());
    assert!(container.commits().get("c0").unwrap().lightweight_tags().is_empty());
}

#[test]
fn listings_are_recognised() {
    assert!(is_tag_listing("a b\nc d\n"));
    assert!(is_tag_listing("a b c"));
    assert!(!is_tag_listing("a b\ncd\n"));
    assert!(!is_tag_listing("a b\n\nc d\n"));
    assert!(!is_tag_listing("\n"));
}
