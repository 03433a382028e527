//! Blob records.

use crate::object_collection::Properties;
use vstd::prelude::*;

verus! {

/// What a blob record holds.
pub struct BlobView {
    /// Position of the record in its store.
    pub index: usize,
    /// Size of the object.
    pub size: u32,
    /// Size of the object on disk.
    pub size_disk: u32,
    /// Path under which the blob was last seen; empty until a link sets it.
    pub path: Seq<char>,
    /// Indices of the commits that introduce the blob, one per link, in the order they
    /// were linked.
    pub commits: Seq<usize>,
}

pub struct Blob {
    hash_index: usize,
    size: u32,
    size_disk: u32,
    path: String,
    commits: Vec<usize>,
}

impl View for Blob {
    type V = BlobView;

    closed spec fn view(&self) -> BlobView {
        BlobView {
            index: self.hash_index,
            size: self.size,
            size_disk: self.size_disk,
            path: self.path@,
            commits: self.commits@,
        }
    }
}

impl Blob {
    /// A blob without path and without links.
    pub open spec fn fresh(index: usize, size: u32, size_disk: u32) -> BlobView {
        BlobView { index, size, size_disk, path: Seq::empty(), commits: Seq::empty() }
    }

    pub fn new(hash_index: usize, size: u32, size_disk: u32) -> (r: Self)
        ensures
            r@ == Self::fresh(hash_index, size, size_disk),
    {
        Blob { hash_index, size, size_disk, path: String::new(), commits: Vec::new() }
    }

    /// The size of the object.
    pub fn size(&self) -> (r: u32)
        ensures
            r == self@.size,
    {
        self.size
    }

    pub fn size_disk(&self) -> (r: u32)
        ensures
            r == self@.size_disk,
    {
        self.size_disk
    }

    pub fn path(&self) -> (r: &str)
        ensures
            r@ == self@.path,
    {
        self.path.as_str()
    }

    pub fn add_path(&mut self, path: &str)
        ensures
            final(self)@ == (BlobView { path: path@, ..old(self)@ }),
    {
        self.path = path.to_owned();
    }

    pub fn add_commit(&mut self, commit_index: &usize)
        ensures
            final(self)@ == (BlobView {
                commits: old(self)@.commits.push(*commit_index),
                ..old(self)@
            }),
    {
        self.commits.push(*commit_index);
    }

    /// The commits that introduce the blob.
    pub fn commits(&self) -> (r: &Vec<usize>)
        ensures
            r@ == self@.commits,
    {
        &self.commits
    }

    /// What `reindexed` does to the view: the index changes, nothing else.
    pub proof fn lemma_reindexed(self, index: usize)
        ensures
            self.reindexed(index)@ == (BlobView { index, ..self@ }),
    {
    }
}

impl Properties for Blob {
    open spec fn record_index(&self) -> usize {
        self@.index
    }

    closed spec fn reindexed(self, index: usize) -> Self {
        Blob { hash_index: index, ..self }
    }

    fn hash_index(&self) -> (r: &usize) {
        &self.hash_index
    }

    fn set_index(&mut self, index: usize) {
        self.hash_index = index;
    }
}

} // verus!
