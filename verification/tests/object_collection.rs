use git_dag_analyzer::commit::Commit;
use git_dag_analyzer::object_collection::{BasicObjectContainer, ObjectContainer, Properties};

#[derive(Debug)]
struct MockObject {
    index: usize,
}

impl Properties for MockObject {
    fn record_index(&self) -> usize {
        self.index
    }

    fn reindexed(self, index: usize) -> Self {
        MockObject { index }
    }

    fn hash_index(&self) -> &usize {
        &self.index
    }

    fn set_index(&mut self, index: usize) {
        self.index = index;
    }
}

#[test]
fn test_basic_object_container_add_and_get() {
    let mut container = BasicObjectContainer::new();
    let hash = "mock_hash";
    let object = MockObject { index: 0 };

    container.add(hash, object);

    assert_eq!(container.count(), 1);
    assert!(container.get_index(hash).is_some());
    assert_eq!(container.get_index(hash).unwrap(), &0);
}

#[test]
fn test_basic_object_container_get_by_index() {
    let mut container = BasicObjectContainer::new();
    let hash = "mock_hash";
    let object = MockObject { index: 0 };

    container.add(hash, object);

    let retrieved_object = container.get_by_index(&0);
    assert_eq!(retrieved_object.hash_index(), &0);
}

#[test]
fn test_basic_object_container_lookup_hash_for_index() {
    let mut container = BasicObjectContainer::new();
    let hash = "mock_hash";
    let object = MockObject { index: 0 };

    container.add(hash, object);

    let retrieved_hash = container.lookup_hash_for_index(&0);
    assert!(retrieved_hash.is_some());
    assert_eq!(retrieved_hash.unwrap(), hash);
}

#[test]
fn test_object_container_add_commit() {
    let mut container = ObjectContainer::new();
    let hash = "mock_commit_hash";
    let commit = Commit::new(0, 123, 456);

    container.mut_commits().add(hash, commit);

    assert_eq!(container.commits().count(), 1);
    assert!(container.commits().get_index(hash).is_some());
}

#[test]
fn test_object_container_retrieve_commit() {
    let mut container = ObjectContainer::new();
    let hash = "mock_commit_hash";
    let commit = Commit::new(0, 123, 456);

    container.mut_commits().add(hash, commit);

    let retrieved_commit = container.commits().get(hash).unwrap();
    assert_eq!(retrieved_commit.hash_index(), &0);
}

#[test]
fn test_object_container_lookup_commit_hash() {
    let mut container = ObjectContainer::new();
    let hash = "mock_commit_hash";
    let commit = Commit::new(0, 123, 456);

    container.mut_commits().add(hash, commit);

    let retrieved_hash = container.commits().lookup_hash_for_index(&0);
    assert!(retrieved_hash.is_some());
    assert_eq!(retrieved_hash.unwrap(), hash);
}

#[test]
fn store_assigns_sequential_indices() {
    let mut container = BasicObjectContainer::new();
    assert_eq!(container.add("a", MockObject { index: 9 }), 0);
    assert_eq!(container.add("b", MockObject { index: 9 }), 1);
    assert_eq!(container.get_by_index(&1).hash_index(), &1);
    assert_eq!(container.get_index("a"), Some(&0));
    assert_eq!(container.get_index("c"), None);
    assert!(container.get("c").is_none());
    assert_eq!(container.lookup_hash_for_index(&2), None);
}

#[test]
fn reinserted_hash_leads_to_the_new_record() {
    let mut container = BasicObjectContainer::new();
    container.add("a", MockObject { index: 0 });
    container.add("b", MockObject { index: 1 });
    container.add("a", MockObject { index: 2 });
    assert_eq!(container.get_index("a"), Some(&2));
    assert_eq!(container.lookup_hash_for_index(&0), None);
    assert_eq!(container.lookup_hash_for_index(&2).unwrap(), "a");
    assert_eq!(
        container.object_hash_iter(),
        vec![("b".to_string(), 1), ("a".to_string(), 2)]
    );
    assert_eq!(container.object_iter().len(), 3);
}
