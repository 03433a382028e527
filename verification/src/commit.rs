//! Commit records.

use crate::object_collection::Properties;
use crate::text::string_views;
use vstd::prelude::*;

verus! {

/// What a commit record holds.
pub struct CommitView {
    /// Position of the record in its store.
    pub index: usize,
    /// Size of the object.
    pub size: u32,
    /// Size of the object on disk.
    pub size_disk: u32,
    /// Indices of the blobs that the commit introduces, in the order they were linked.
    pub blob_deps: Seq<usize>,
    /// Indices of the trees that the commit introduces, in the order they were linked.
    pub tree_deps: Seq<usize>,
    /// Indices of the annotated tags that point at the commit.
    pub tag_deps: Seq<usize>,
    /// Labels of the lightweight tags that point at the commit.
    pub lightweight_tags: Seq<Seq<char>>,
}

#[derive(Debug)]
pub struct Commit {
    hash_index: usize,
    size: u32,
    size_disk: u32,
    blob_deps: Vec<usize>,
    tree_deps: Vec<usize>,
    tag_deps: Vec<usize>,
    lightweight_tags: Vec<String>,
}

impl View for Commit {
    type V = CommitView;

    closed spec fn view(&self) -> CommitView {
        CommitView {
            index: self.hash_index,
            size: self.size,
            size_disk: self.size_disk,
            blob_deps: self.blob_deps@,
            tree_deps: self.tree_deps@,
            tag_deps: self.tag_deps@,
            lightweight_tags: string_views(self.lightweight_tags@),
        }
    }
}

impl Commit {
    /// A commit without links.
    pub open spec fn fresh(index: usize, size: u32, size_disk: u32) -> CommitView {
        CommitView {
            index,
            size,
            size_disk,
            blob_deps: Seq::empty(),
            tree_deps: Seq::empty(),
            tag_deps: Seq::empty(),
            lightweight_tags: Seq::empty(),
        }
    }

    pub fn new(hash_index: usize, size: u32, size_disk: u32) -> (r: Self)
        ensures
            r@ == Self::fresh(hash_index, size, size_disk),
    {
        let r = Commit {
            hash_index,
            size,
            size_disk,
            blob_deps: Vec::new(),
            tree_deps: Vec::new(),
            tag_deps: Vec::new(),
            lightweight_tags: Vec::new(),
        };
        assert(r@.lightweight_tags =~= Seq::empty());
        r
    }

    /// The size of the object.
    pub fn size(&self) -> (r: u32)
        ensures
            r == self@.size,
    {
        self.size
    }

    pub fn size_disk(&self) -> (r: u32)
        ensures
            r == self@.size_disk,
    {
        self.size_disk
    }

    pub fn add_blob_dep(&mut self, blob_index: &usize)
        ensures
            final(self)@ == (CommitView {
                blob_deps: old(self)@.blob_deps.push(*blob_index),
                ..old(self)@
            }),
    {
        self.blob_deps.push(*blob_index);
    }

    pub fn blob_deps(&self) -> (r: &Vec<usize>)
        ensures
            r@ == self@.blob_deps,
    {
        &self.blob_deps
    }

    pub fn add_tree_dep(&mut self, tree_index: &usize)
        ensures
            final(self)@ == (CommitView {
                tree_deps: old(self)@.tree_deps.push(*tree_index),
                ..old(self)@
            }),
    {
        self.tree_deps.push(*tree_index);
    }

    pub fn tree_deps(&self) -> (r: &Vec<usize>)
        ensures
            r@ == self@.tree_deps,
    {
        &self.tree_deps
    }

    pub fn add_tag_dep(&mut self, tag_index: &usize)
        ensures
            final(self)@ == (CommitView {
                tag_deps: old(self)@.tag_deps.push(*tag_index),
                ..old(self)@
            }),
    {
        self.tag_deps.push(*tag_index);
    }

    pub fn tag_deps(&self) -> (r: &Vec<usize>)
        ensures
            r@ == self@.tag_deps,
    {
        &self.tag_deps
    }

    pub fn add_lightweight_tag(&mut self, lightweight_tag: &str)
        ensures
            final(self)@ == (CommitView {
                lightweight_tags: old(self)@.lightweight_tags.push(lightweight_tag@),
                ..old(self)@
            }),
    {
        let owned = lightweight_tag.to_owned();
        assert(string_views(self.lightweight_tags@.push(owned)) =~= string_views(
            self.lightweight_tags@,
        ).push(owned@));
        self.lightweight_tags.push(owned);
    }

    pub fn lightweight_tags(&self) -> (r: &Vec<String>)
        ensures
            string_views(r@) == self@.lightweight_tags,
    {
        &self.lightweight_tags
    }

    /// What `reindexed` does to the view: the index changes, nothing else.
    pub proof fn lemma_reindexed(self, index: usize)
        ensures
            self.reindexed(index)@ == (CommitView { index, ..self@ }),
    {
    }
}

impl Default for Commit {
    fn default() -> (r: Self)
        ensures
            r@ == Commit::fresh(0, 0, 0),
    {
        Commit::new(0, 0, 0)
    }
}

impl Properties for Commit {
    open spec fn record_index(&self) -> usize {
        self@.index
    }

    closed spec fn reindexed(self, index: usize) -> Self {
        Commit { hash_index: index, ..self }
    }

    fn hash_index(&self) -> (r: &usize) {
        &self.hash_index
    }

    fn set_index(&mut self, index: usize) {
        self.hash_index = index;
    }
}

} // verus!
