//! Annotated tag records.

use crate::object_collection::Properties;
use vstd::prelude::*;

verus! {

/// What a tag record holds.
pub struct TagView {
    /// Position of the record in its store.
    pub index: usize,
    /// Size of the object.
    pub size: u32,
    /// Size of the object on disk.
    pub size_disk: u32,
    /// The reference label of the tag; empty until the tag references were read.
    pub name: Seq<char>,
    /// Index of the commit that the tag points at, once it is known.
    pub commit_index: Option<usize>,
}

pub struct Tag {
    hash_index: usize,
    size: u32,
    size_disk: u32,
    name: String,
    commit_index: Option<usize>,
}

impl View for Tag {
    type V = TagView;

    closed spec fn view(&self) -> TagView {
        TagView {
            index: self.hash_index,
            size: self.size,
            size_disk: self.size_disk,
            name: self.name@,
            commit_index: self.commit_index,
        }
    }
}

impl Tag {
    /// A tag without name and without commit.
    pub open spec fn fresh(index: usize, size: u32, size_disk: u32) -> TagView {
        TagView { index, size, size_disk, name: Seq::empty(), commit_index: None }
    }

    pub fn new(hash_index: usize, size: u32, size_disk: u32) -> (r: Tag)
        ensures
            r@ == Self::fresh(hash_index, size, size_disk),
    {
        Tag { hash_index, size, size_disk, name: String::new(), commit_index: None }
    }

    /// The size of the object.
    pub fn size(&self) -> (r: u32)
        ensures
            r == self@.size,
    {
        self.size
    }

    pub fn size_disk(&self) -> (r: u32)
        ensures
            r == self@.size_disk,
    {
        self.size_disk
    }

    pub fn add_name(&mut self, name: &str)
        ensures
            final(self)@ == (TagView { name: name@, ..old(self)@ }),
    {
        self.name = name.to_owned();
    }

    pub fn add_commit_dep(&mut self, commit_index: &usize)
        ensures
            final(self)@ == (TagView { commit_index: Some(*commit_index), ..old(self)@ }),
    {
        self.commit_index = Some(*commit_index);
    }

    /// The reference label of the tag.
    pub fn name(&self) -> (r: &str)
        ensures
            r@ == self@.name,
    {
        self.name.as_str()
    }

    /// Index of the commit that the tag points at.
    pub fn commit_index(&self) -> (r: Option<usize>)
        ensures
            r == self@.commit_index,
    {
        self.commit_index
    }

    /// What `reindexed` does to the view: the index changes, nothing else.
    pub proof fn lemma_reindexed(self, index: usize)
        ensures
            self.reindexed(index)@ == (TagView { index, ..self@ }),
    {
    }
}

impl Properties for Tag {
    open spec fn record_index(&self) -> usize {
        self@.index
    }

    closed spec fn reindexed(self, index: usize) -> Self {
        Tag { hash_index: index, ..self }
    }

    fn hash_index(&self) -> (r: &usize) {
        &self.hash_index
    }

    fn set_index(&mut self, index: usize) {
        self.hash_index = index;
    }
}

} // verus!
